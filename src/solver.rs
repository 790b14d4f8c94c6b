use vstd::arithmetic::div_mod::lemma_fundamental_div_mod_converse;
use vstd::arithmetic::mul::{lemma_mul_is_commutative, lemma_mul_is_distributive_add};
use vstd::prelude::*;

use crate::error::{FResult, FactoringError};

verus! {

/// A concrete nucleotide base.
#[derive(Debug, Clone, Copy, PartialEq, Eq, Structural)]
pub enum Base {
    A,
    C,
    G,
    U,
}

/// The base at position `k` of the canonical order A, C, G, U.
pub open spec fn base_at(k: nat) -> Base {
    if k == 0 {
        Base::A
    } else if k == 1 {
        Base::C
    } else if k == 2 {
        Base::G
    } else {
        Base::U
    }
}

/// The set of concrete bases that one ambiguity code may stand for.
#[derive(Debug, Clone, Copy, PartialEq, Eq, Structural)]
pub struct PossibilityTable {
    pub a: bool,
    pub c: bool,
    pub g: bool,
    pub u: bool,
}

impl PossibilityTable {
    pub open spec fn has(self, b: Base) -> bool {
        match b {
            Base::A => self.a,
            Base::C => self.c,
            Base::G => self.g,
            Base::U => self.u,
        }
    }

    /// The bases of the table from canonical position `k` on, in canonical order.
    pub open spec fn bases_from(self, k: nat) -> Seq<Base>
        decreases 4 - k,
    {
        if k >= 4 {
            seq![]
        } else if self.has(base_at(k)) {
            seq![base_at(k)] + self.bases_from(k + 1)
        } else {
            self.bases_from(k + 1)
        }
    }

    /// The bases of the table in canonical order.
    pub open spec fn bases(self) -> Seq<Base> {
        self.bases_from(0)
    }

    pub fn index(&self, index: Base) -> (r: bool)
        ensures
            r == self.has(index),
    {
        match index {
            Base::A => self.a,
            Base::C => self.c,
            Base::G => self.g,
            Base::U => self.u,
        }
    }

    /// An iterator over the bases of the table, in canonical order.
    pub fn into_iter(&self) -> (r: PossibilityTableIter)
        ensures
            r.next == Some(Base::A),
            r.table == *self,
            r.remaining() == self.bases(),
    {
        PossibilityTableIter { next: Some(Base::A), table: *self }
    }

    /// The bases of the table in canonical order, collected.
    pub fn to_vec(&self) -> (r: Vec<Base>)
        ensures
            r@ == self.bases(),
    {
        let mut out: Vec<Base> = Vec::new();
        let mut iter = self.into_iter();
        loop
            invariant
                iter.table == *self,
                out@ + iter.remaining() == self.bases(),
            decreases iter.remaining().len(),
        {
            match iter.next() {
                Some(b) => {
                    out.push(b);
                    assert(out@ + iter.remaining() =~= self.bases());
                },
                None => {
                    assert(out@ =~= self.bases());
                    return out;
                },
            }
        }
    }
}

/// The base that follows `b` in canonical order; `None` after U.
pub open spec fn after(b: Base) -> Option<Base> {
    match b {
        Base::A => Some(Base::C),
        Base::C => Some(Base::G),
        Base::G => Some(Base::U),
        Base::U => None,
    }
}

/// Walks the bases of a table in canonical order.
pub struct PossibilityTableIter {
    pub next: Option<Base>,
    pub table: PossibilityTable,
}

impl PossibilityTableIter {
    /// Canonical position of the next base to look at; 4 once exhausted.
    pub open spec fn position(self) -> nat {
        match self.next {
            Some(Base::A) => 0,
            Some(Base::C) => 1,
            Some(Base::G) => 2,
            Some(Base::U) => 3,
            None => 4,
        }
    }

    /// The bases that the iterator has still to hand out.
    pub open spec fn remaining(self) -> Seq<Base> {
        self.table.bases_from(self.position())
    }

    pub fn next(&mut self) -> (r: Option<Base>)
        ensures
            final(self).table == old(self).table,
            match r {
                None => old(self).remaining().len() == 0 && final(self).next is None,
                Some(b) => old(self).remaining().len() > 0 && b == old(self).remaining()[0]
                    && final(self).remaining() == old(self).remaining().drop_first()
                    && final(self).next == after(b),
            },
            old(self).next is Some ==> final(self).position() > old(self).position(),
    {
        loop
            invariant
                self.table == old(self).table,
                self.remaining() == old(self).remaining(),
                self.position() >= old(self).position(),
            decreases 4 - self.position(),
        {
            match self.next {
                Some(Base::A) => {
                    self.next = Some(Base::C);
                    if self.table.a {
                        return Some(Base::A);
                    }
                },
                Some(Base::C) => {
                    self.next = Some(Base::G);
                    if self.table.c {
                        return Some(Base::C);
                    }
                },
                Some(Base::G) => {
                    self.next = Some(Base::U);
                    if self.table.g {
                        return Some(Base::G);
                    }
                },
                Some(Base::U) => {
                    self.next = None;
                    if self.table.u {
                        return Some(Base::U);
                    }
                },
                None => return None,
            }
        }
    }
}

/// A nucleotide letter, possibly standing for several concrete bases.
#[derive(Debug, Clone, Copy, PartialEq, Eq, Structural)]
pub enum AmbiguousBases {
    /// A
    A,
    /// C
    C,
    /// G
    G,
    /// U (T)
    U,
    /// A or U
    W,
    /// C or G
    S,
    /// A or C
    M,
    /// G or U
    K,
    /// A or G
    R,
    /// C or U
    Y,
    /// not A
    B,
    /// not C
    D,
    /// not G
    H,
    /// not U
    V,
    /// any base
    N,
}

/// The fixed table of concrete bases that each code stands for.
pub open spec fn table_of(code: AmbiguousBases) -> PossibilityTable {
    match code {
        AmbiguousBases::A => PossibilityTable { a: true, c: false, g: false, u: false },
        AmbiguousBases::C => PossibilityTable { a: false, c: true, g: false, u: false },
        AmbiguousBases::G => PossibilityTable { a: false, c: false, g: true, u: false },
        AmbiguousBases::U => PossibilityTable { a: false, c: false, g: false, u: true },
        AmbiguousBases::W => PossibilityTable { a: true, c: false, g: false, u: true },
        AmbiguousBases::S => PossibilityTable { a: false, c: true, g: true, u: false },
        AmbiguousBases::M => PossibilityTable { a: true, c: true, g: false, u: false },
        AmbiguousBases::K => PossibilityTable { a: false, c: false, g: true, u: true },
        AmbiguousBases::R => PossibilityTable { a: true, c: false, g: true, u: false },
        AmbiguousBases::Y => PossibilityTable { a: false, c: true, g: false, u: true },
        AmbiguousBases::B => PossibilityTable { a: false, c: true, g: true, u: true },
        AmbiguousBases::D => PossibilityTable { a: true, c: false, g: true, u: true },
        AmbiguousBases::H => PossibilityTable { a: true, c: true, g: false, u: true },
        AmbiguousBases::V => PossibilityTable { a: true, c: true, g: true, u: false },
        AmbiguousBases::N => PossibilityTable { a: true, c: true, g: true, u: true },
    }
}

/// The code that an input letter denotes; 'T' is read as 'U'.
pub open spec fn letter_code(c: char) -> Option<AmbiguousBases> {
    if c == 'T' {
        Some(AmbiguousBases::U)
    } else if c == 'A' {
        Some(AmbiguousBases::A)
    } else if c == 'C' {
        Some(AmbiguousBases::C)
    } else if c == 'G' {
        Some(AmbiguousBases::G)
    } else if c == 'U' {
        Some(AmbiguousBases::U)
    } else if c == 'W' {
        Some(AmbiguousBases::W)
    } else if c == 'S' {
        Some(AmbiguousBases::S)
    } else if c == 'M' {
        Some(AmbiguousBases::M)
    } else if c == 'K' {
        Some(AmbiguousBases::K)
    } else if c == 'R' {
        Some(AmbiguousBases::R)
    } else if c == 'Y' {
        Some(AmbiguousBases::Y)
    } else if c == 'B' {
        Some(AmbiguousBases::B)
    } else if c == 'D' {
        Some(AmbiguousBases::D)
    } else if c == 'H' {
        Some(AmbiguousBases::H)
    } else if c == 'V' {
        Some(AmbiguousBases::V)
    } else if c == 'N' {
        Some(AmbiguousBases::N)
    } else {
        None
    }
}

impl AmbiguousBases {
    pub fn from_char(c: char) -> (r: FResult<Self>)
        ensures
            r == match letter_code(c) {
                Some(code) => Ok(code),
                None => Err(FactoringError::LetterNotAmbiguousBase(c)),
            },
    {
        match c {
            'A' => Ok(Self::A),
            'C' => Ok(Self::C),
            'G' => Ok(Self::G),
            'T' | 'U' => Ok(Self::U),
            'W' => Ok(Self::W),
            'S' => Ok(Self::S),
            'M' => Ok(Self::M),
            'K' => Ok(Self::K),
            'R' => Ok(Self::R),
            'Y' => Ok(Self::Y),
            'B' => Ok(Self::B),
            'D' => Ok(Self::D),
            'H' => Ok(Self::H),
            'V' => Ok(Self::V),
            'N' => Ok(Self::N),
            c => Err(FactoringError::LetterNotAmbiguousBase(c)),
        }
    }
}

/// One possibility table for each ambiguity code.
pub struct Possibilities {
    pub a: PossibilityTable,
    pub c: PossibilityTable,
    pub g: PossibilityTable,
    pub u: PossibilityTable,
    pub w: PossibilityTable,
    pub s: PossibilityTable,
    pub m: PossibilityTable,
    pub k: PossibilityTable,
    pub r: PossibilityTable,
    pub y: PossibilityTable,
    pub b: PossibilityTable,
    pub d: PossibilityTable,
    pub h: PossibilityTable,
    pub v: PossibilityTable,
    pub n: PossibilityTable,
}

impl Possibilities {
    pub open spec fn spec_index(self, code: AmbiguousBases) -> PossibilityTable {
        match code {
            AmbiguousBases::A => self.a,
            AmbiguousBases::C => self.c,
            AmbiguousBases::G => self.g,
            AmbiguousBases::U => self.u,
            AmbiguousBases::W => self.w,
            AmbiguousBases::S => self.s,
            AmbiguousBases::M => self.m,
            AmbiguousBases::K => self.k,
            AmbiguousBases::R => self.r,
            AmbiguousBases::Y => self.y,
            AmbiguousBases::B => self.b,
            AmbiguousBases::D => self.d,
            AmbiguousBases::H => self.h,
            AmbiguousBases::V => self.v,
            AmbiguousBases::N => self.n,
        }
    }

    pub fn index(&self, index: AmbiguousBases) -> (r: PossibilityTable)
        ensures
            r == self.spec_index(index),
    {
        match index {
            AmbiguousBases::A => self.a,
            AmbiguousBases::C => self.c,
            AmbiguousBases::G => self.g,
            AmbiguousBases::U => self.u,
            AmbiguousBases::W => self.w,
            AmbiguousBases::S => self.s,
            AmbiguousBases::M => self.m,
            AmbiguousBases::K => self.k,
            AmbiguousBases::R => self.r,
            AmbiguousBases::Y => self.y,
            AmbiguousBases::B => self.b,
            AmbiguousBases::D => self.d,
            AmbiguousBases::H => self.h,
            AmbiguousBases::V => self.v,
            AmbiguousBases::N => self.n,
        }
    }

    /// The IUPAC table.
    pub fn iupac() -> (r: Self)
        ensures
            forall|code: AmbiguousBases| #[trigger] r.spec_index(code) == table_of(code),
    {
        Possibilities {
            a: PossibilityTable { a: true, c: false, g: false, u: false },
            c: PossibilityTable { a: false, c: true, g: false, u: false },
            g: PossibilityTable { a: false, c: false, g: true, u: false },
            u: PossibilityTable { a: false, c: false, g: false, u: true },
            w: PossibilityTable { a: true, c: false, g: false, u: true },
            s: PossibilityTable { a: false, c: true, g: true, u: false },
            m: PossibilityTable { a: true, c: true, g: false, u: false },
            k: PossibilityTable { a: false, c: false, g: true, u: true },
            r: PossibilityTable { a: true, c: false, g: true, u: false },
            y: PossibilityTable { a: false, c: true, g: false, u: true },
            b: PossibilityTable { a: false, c: true, g: true, u: true },
            d: PossibilityTable { a: true, c: false, g: true, u: true },
            h: PossibilityTable { a: true, c: true, g: false, u: true },
            v: PossibilityTable { a: true, c: true, g: true, u: false },
            n: PossibilityTable { a: true, c: true, g: true, u: true },
        }
    }
}

/// The standard genetic code; `None` for the three stop codons.
pub open spec fn genetic_code(f: Base, s: Base, t: Base) -> Option<char> {
    match (f, s) {
        (Base::A, Base::G) => if t == Base::G || t == Base::A { Some('R') } else { Some('S') },
        (Base::A, Base::A) => if t == Base::G || t == Base::A { Some('K') } else { Some('N') },
        (Base::A, Base::C) => Some('T'),
        (Base::A, Base::U) => if t == Base::G { Some('M') } else { Some('I') },
        (Base::C, Base::G) => Some('R'),
        (Base::C, Base::A) => if t == Base::G || t == Base::A { Some('Q') } else { Some('H') },
        (Base::C, Base::C) => Some('P'),
        (Base::C, Base::U) => Some('L'),
        (Base::U, Base::G) => if t == Base::G { Some('W') } else if t == Base::A { None } else { Some('C') },
        (Base::U, Base::A) => if t == Base::G || t == Base::A { None } else { Some('Y') },
        (Base::U, Base::C) => Some('S'),
        (Base::U, Base::U) => if t == Base::G || t == Base::A { Some('L') } else { Some('F') },
        (Base::G, Base::G) => Some('G'),
        (Base::G, Base::A) => if t == Base::G || t == Base::A { Some('E') } else { Some('D') },
        (Base::G, Base::C) => Some('A'),
        (Base::G, Base::U) => Some('V'),
    }
}

/// A codon under construction: the first base, then up to two more.
#[derive(Debug, Clone, Copy, PartialEq, Eq, Structural)]
pub struct Chain {
    pub first: Base,
    pub second: Option<Base>,
    pub third: Option<Base>,
}

impl Chain {
    pub open spec fn is_complete(self) -> bool {
        self.second.is_some() && self.third.is_some()
    }

    /// The chain with `b` in its next empty slot; `None` when it is full.
    pub open spec fn spec_insert(self, b: Base) -> Option<Chain> {
        if self.second.is_none() {
            Some(Chain { first: self.first, second: Some(b), third: self.third })
        } else if self.third.is_none() {
            Some(Chain { first: self.first, second: self.second, third: Some(b) })
        } else {
            None
        }
    }

    /// What a complete chain translates to.
    pub open spec fn translation(self) -> Option<char> {
        match (self.second, self.third) {
            (Some(s), Some(t)) => genetic_code(self.first, s, t),
            _ => None,
        }
    }

    pub fn new(first: Base) -> (r: Self)
        ensures
            r == (Chain { first, second: None, third: None }),
    {
        Self { first, second: None, third: None }
    }

    pub fn insert(&mut self, next: Base) -> (r: FResult<()>)
        ensures
            match old(self).spec_insert(next) {
                Some(c) => r == Ok::<(), FactoringError>(()) && *final(self) == c,
                None => r == Err::<(), FactoringError>(
                    FactoringError::AttemptedInsertionOnFullChain(*old(self), next),
                ) && *final(self) == *old(self),
            },
    {
        if self.second.is_none() {
            self.second = Some(next);
            Ok(())
        } else if self.third.is_none() {
            self.third = Some(next);
            Ok(())
        } else {
            Err(FactoringError::AttemptedInsertionOnFullChain(*self, next))
        }
    }

    pub fn finalise(self) -> (r: FResult<Option<char>>)
        ensures
            r == if self.is_complete() {
                Ok(self.translation())
            } else {
                Err(FactoringError::FinaliseCalledOnIncompleteChain(self))
            },
    {
        let first = self.first;
        let second = match self.second {
            Some(b) => b,
            None => return Err(FactoringError::FinaliseCalledOnIncompleteChain(self)),
        };
        let third = match self.third {
            Some(b) => b,
            None => return Err(FactoringError::FinaliseCalledOnIncompleteChain(self)),
        };
        let is_ga = match third {
            Base::G | Base::A => true,
            _ => false,
        };
        let letter = match (first, second) {
            (Base::A, Base::G) => if is_ga { Some('R') } else { Some('S') },
            (Base::A, Base::A) => if is_ga { Some('K') } else { Some('N') },
            (Base::A, Base::C) => Some('T'),
            (Base::A, Base::U) => match third {
                Base::G => Some('M'),
                _ => Some('I'),
            },
            (Base::C, Base::G) => Some('R'),
            (Base::C, Base::A) => if is_ga { Some('Q') } else { Some('H') },
            (Base::C, Base::C) => Some('P'),
            (Base::C, Base::U) => Some('L'),
            (Base::U, Base::G) => match third {
                Base::G => Some('W'),
                Base::A => None,
                _ => Some('C'),
            },
            (Base::U, Base::A) => if is_ga { None } else { Some('Y') },
            (Base::U, Base::C) => Some('S'),
            (Base::U, Base::U) => if is_ga { Some('L') } else { Some('F') },
            (Base::G, Base::G) => Some('G'),
            (Base::G, Base::A) => if is_ga { Some('E') } else { Some('D') },
            (Base::G, Base::C) => Some('A'),
            (Base::G, Base::U) => Some('V'),
        };
        Ok(letter)
    }
}

/// The chain that filling the next empty slot of `c` with `b` gives.
pub open spec fn with_next(c: Chain, b: Base) -> Chain {
    match c.spec_insert(b) {
        Some(n) => n,
        None => c,
    }
}

/// One new chain per chain and base: chains outer-most, bases inner-most.
pub open spec fn extend(acids: Seq<Chain>, bs: Seq<Base>) -> Seq<Chain> {
    Seq::new(
        acids.len() * bs.len(),
        |k: int| with_next(acids[k / (bs.len() as int)], bs[k % (bs.len() as int)]),
    )
}

/// One single-base chain per base.
pub open spec fn starts(bs: Seq<Base>) -> Seq<Chain> {
    bs.map_values(|b: Base| Chain { first: b, second: None, third: None })
}

/// Every concrete codon that three ambiguity codes allow.
pub open spec fn expansion(c1: AmbiguousBases, c2: AmbiguousBases, c3: AmbiguousBases) -> Seq<Chain> {
    extend(extend(starts(table_of(c1).bases()), table_of(c2).bases()), table_of(c3).bases())
}

/// Every concrete codon that three input letters allow, or the error for the
/// first letter that is not a code.
pub open spec fn letters_expansion(l1: char, l2: char, l3: char) -> FResult<Seq<Chain>> {
    match (letter_code(l1), letter_code(l2), letter_code(l3)) {
        (Some(c1), Some(c2), Some(c3)) => Ok(expansion(c1, c2, c3)),
        (None, _, _) => Err(FactoringError::LetterNotAmbiguousBase(l1)),
        (Some(_), None, _) => Err(FactoringError::LetterNotAmbiguousBase(l2)),
        (Some(_), Some(_), None) => Err(FactoringError::LetterNotAmbiguousBase(l3)),
    }
}

fn extend_chains(acids: &Vec<Chain>, bs: &Vec<Base>) -> (r: FResult<Vec<Chain>>)
    requires
        forall|i: int| 0 <= i < acids@.len() ==> (#[trigger] acids@[i]).third.is_none(),
    ensures
        r matches Ok(v) && v@ == extend(acids@, bs@),
        (forall|i: int| 0 <= i < acids@.len() ==> (#[trigger] acids@[i]).second.is_none())
            ==> (r matches Ok(v) && forall|k: int| 0 <= k < v@.len() ==> (#[trigger] v@[k]).second.is_some() && v@[k].third.is_none()),
        (forall|i: int| 0 <= i < acids@.len() ==> (#[trigger] acids@[i]).second.is_some())
            ==> (r matches Ok(v) && forall|k: int| 0 <= k < v@.len() ==> (#[trigger] v@[k]).is_complete()),
{
    let nb = bs.len();
    let mut out: Vec<Chain> = Vec::new();
    let mut j: usize = 0;
    while j < acids.len()
        invariant
            j <= acids@.len(),
            nb == bs@.len(),
            out@.len() == j * nb,
            forall|i: int| 0 <= i < acids@.len() ==> (#[trigger] acids@[i]).third.is_none(),
            forall|k: int| 0 <= k < out@.len() ==> #[trigger] out@[k] == with_next(acids@[k / (nb as int)], bs@[k % (nb as int)]),
            (forall|i: int| 0 <= i < acids@.len() ==> (#[trigger] acids@[i]).second.is_none())
                ==> forall|k: int| 0 <= k < out@.len() ==> (#[trigger] out@[k]).second.is_some() && out@[k].third.is_none(),
            (forall|i: int| 0 <= i < acids@.len() ==> (#[trigger] acids@[i]).second.is_some())
                ==> forall|k: int| 0 <= k < out@.len() ==> (#[trigger] out@[k]).is_complete(),
        decreases acids.len() - j,
    {
        let mut i: usize = 0;
        while i < nb
            invariant
                j < acids@.len(),
                i <= nb,
                nb == bs@.len(),
                out@.len() == j * nb + i,
                forall|i: int| 0 <= i < acids@.len() ==> (#[trigger] acids@[i]).third.is_none(),
                forall|k: int| 0 <= k < out@.len() ==> #[trigger] out@[k] == with_next(acids@[k / (nb as int)], bs@[k % (nb as int)]),
                (forall|i: int| 0 <= i < acids@.len() ==> (#[trigger] acids@[i]).second.is_none())
                    ==> forall|k: int| 0 <= k < out@.len() ==> (#[trigger] out@[k]).second.is_some() && out@[k].third.is_none(),
                (forall|i: int| 0 <= i < acids@.len() ==> (#[trigger] acids@[i]).second.is_some())
                    ==> forall|k: int| 0 <= k < out@.len() ==> (#[trigger] out@[k]).is_complete(),
            decreases nb - i,
        {
            let mut acid = acids[j];
            match acid.insert(bs[i]) {
                Ok(()) => {},
                Err(e) => return Err(e),
            }
            proof {
                lemma_fundamental_div_mod_converse(out@.len() as int, nb as int, j as int, i as int);
            }
            out.push(acid);
            i += 1;
        }
        proof {
            lemma_mul_is_distributive_add(nb as int, j as int, 1);
            lemma_mul_is_commutative(nb as int, j as int);
            lemma_mul_is_commutative(nb as int, j + 1);
        }
        j += 1;
    }
    proof {
        lemma_mul_is_commutative(nb as int, acids@.len() as int);
    }
    assert(out@ =~= extend(acids@, bs@));
    Ok(out)
}

/// Every concrete codon that the letters `first`, `second` and `third` allow.
pub fn possible_chains(first: char, second: char, third: char) -> (r: FResult<Vec<Chain>>)
    ensures
        match letters_expansion(first, second, third) {
            Ok(s) => r matches Ok(v) && v@ == s,
            Err(e) => r == Err::<Vec<Chain>, FactoringError>(e),
        },
        r matches Ok(v) ==> forall|k: int| 0 <= k < v@.len() ==> (#[trigger] v@[k]).is_complete(),
{
    let table = Possibilities::iupac();
    let c1 = match AmbiguousBases::from_char(first) {
        Ok(c) => c,
        Err(e) => return Err(e),
    };
    let firsts = table.index(c1).to_vec();
    let mut acids: Vec<Chain> = Vec::new();
    let mut i: usize = 0;
    while i < firsts.len()
        invariant
            i <= firsts@.len(),
            acids@ == starts(firsts@).take(i as int),
        decreases firsts.len() - i,
    {
        acids.push(Chain::new(firsts[i]));
        assert(acids@ =~= starts(firsts@).take(i + 1));
        i += 1;
    }
    assert(acids@ =~= starts(firsts@));
    let c2 = match AmbiguousBases::from_char(second) {
        Ok(c) => c,
        Err(e) => return Err(e),
    };
    let acids = match extend_chains(&acids, &table.index(c2).to_vec()) {
        Ok(v) => v,
        Err(e) => return Err(e),
    };
    let c3 = match AmbiguousBases::from_char(third) {
        Ok(c) => c,
        Err(e) => return Err(e),
    };
    let acids = match extend_chains(&acids, &table.index(c3).to_vec()) {
        Ok(v) => v,
        Err(e) => return Err(e),
    };
    Ok(acids)
}

/// Whether a letter names exactly one base.
pub open spec fn is_plain_letter(c: char) -> bool {
    c == 'A' || c == 'C' || c == 'G' || c == 'T' || c == 'U'
}

/// A triplet of plain letters expands to exactly one concrete codon.
pub proof fn lemma_plain_codon_single(l1: char, l2: char, l3: char)
    requires
        is_plain_letter(l1),
        is_plain_letter(l2),
        is_plain_letter(l3),
    ensures
        letters_expansion(l1, l2, l3) is Ok,
        letters_expansion(l1, l2, l3)->Ok_0.len() == 1,
{
    reveal_with_fuel(PossibilityTable::bases_from, 5);
    let b1 = table_of(letter_code(l1)->Some_0).bases();
    let b2 = table_of(letter_code(l2)->Some_0).bases();
    let b3 = table_of(letter_code(l3)->Some_0).bases();
    assert(b1.len() == 1 && b2.len() == 1 && b3.len() == 1);
    assert(starts(b1).len() == 1);
    assert(extend(starts(b1), b2).len() == 1);
}

/// The canonical position of a base.
pub open spec fn rank(b: Base) -> int {
    match b {
        Base::A => 0,
        Base::C => 1,
        Base::G => 2,
        Base::U => 3,
    }
}

/// The fully ambiguous triplet "NNN" expands to all 64 concrete codons, each once.
pub proof fn lemma_all_n_codon()
    ensures
        letters_expansion('N', 'N', 'N') == Ok::<Seq<Chain>, FactoringError>(
            expansion(AmbiguousBases::N, AmbiguousBases::N, AmbiguousBases::N),
        ),
        expansion(AmbiguousBases::N, AmbiguousBases::N, AmbiguousBases::N).len() == 64,
        forall|f: Base, s: Base, t: Base|
            expansion(AmbiguousBases::N, AmbiguousBases::N, AmbiguousBases::N).contains(
                Chain { first: f, second: Some(s), third: Some(t) },
            ),
        expansion(AmbiguousBases::N, AmbiguousBases::N, AmbiguousBases::N).no_duplicates(),
{
    reveal_with_fuel(PossibilityTable::bases_from, 5);
    let all = table_of(AmbiguousBases::N).bases();
    assert(all =~= seq![Base::A, Base::C, Base::G, Base::U]);
    let one = starts(all);
    let two = extend(one, all);
    let e = expansion(AmbiguousBases::N, AmbiguousBases::N, AmbiguousBases::N);
    assert(all.len() == 4);
    assert(one.len() == all.len());
    assert(one.len() * all.len() == 16) by (nonlinear_arith)
        requires
            one.len() == 4,
            all.len() == 4,
    ;
    assert(two.len() == 16);
    assert(two.len() * all.len() == 64) by (nonlinear_arith)
        requires
            two.len() == 16,
            all.len() == 4,
    ;
    assert(e == extend(two, all));
    assert(e.len() == 64);
    assert forall|k: int| 0 <= k < 64 implies #[trigger] e[k] == (Chain {
        first: all[(k / 4) / 4],
        second: Some(all[(k / 4) % 4]),
        third: Some(all[k % 4]),
    }) by {
        assert(two[k / 4] == with_next(one[(k / 4) / 4], all[(k / 4) % 4]));
    }
    assert forall|f: Base, s: Base, t: Base|
        e.contains(Chain { first: f, second: Some(s), third: Some(t) }) by {
        let k = (rank(f) * 4 + rank(s)) * 4 + rank(t);
        lemma_fundamental_div_mod_converse(k, 4, rank(f) * 4 + rank(s), rank(t));
        lemma_fundamental_div_mod_converse(rank(f) * 4 + rank(s), 4, rank(f), rank(s));
        assert(e[k] == Chain { first: f, second: Some(s), third: Some(t) });
    }
    assert forall|i: int, j: int| 0 <= i < e.len() && 0 <= j < e.len() && i != j implies e[i] != e[j] by {
        if e[i] == e[j] {
            assert(i % 4 == j % 4);
            assert((i / 4) % 4 == (j / 4) % 4);
            assert((i / 4) / 4 == (j / 4) / 4);
        }
    }
}

/// Exactly UAA, UAG and UGA are stop codons; AUG is methionine, UGG
/// tryptophan, and the four GGx codons all glycine.
pub proof fn lemma_genetic_code_landmarks(f: Base, s: Base, t: Base)
    ensures
        genetic_code(f, s, t) is None <==> (f == Base::U && ((s == Base::A && (t == Base::A
            || t == Base::G)) || (s == Base::G && t == Base::A))),
        genetic_code(Base::A, Base::U, Base::G) == Some('M'),
        genetic_code(Base::U, Base::G, Base::G) == Some('W'),
        genetic_code(Base::G, Base::G, t) == Some('G'),
{
}

/// The code that stands for the base `x` alone.
pub open spec fn single_code(x: Base) -> AmbiguousBases {
    match x {
        Base::A => AmbiguousBases::A,
        Base::C => AmbiguousBases::C,
        Base::G => AmbiguousBases::G,
        Base::U => AmbiguousBases::U,
    }
}

/// Every code stands for some base; a code other than the one for `x` alone
/// has a base other than `x` among its first two.
pub proof fn lemma_other_base(c: AmbiguousBases, x: Base)
    ensures
        table_of(c).bases().len() > 0,
        c == single_code(x) || table_of(c).bases()[0] != x || (table_of(c).bases().len() > 1
            && table_of(c).bases()[1] != x),
{
    reveal_with_fuel(PossibilityTable::bases_from, 5);
}

/// Every combination of the three codes' bases is among the expanded codons.
pub proof fn lemma_expansion_member(
    c1: AmbiguousBases,
    c2: AmbiguousBases,
    c3: AmbiguousBases,
    i1: int,
    i2: int,
    i3: int,
)
    requires
        0 <= i1 < table_of(c1).bases().len(),
        0 <= i2 < table_of(c2).bases().len(),
        0 <= i3 < table_of(c3).bases().len(),
    ensures
        expansion(c1, c2, c3).contains(
            Chain {
                first: table_of(c1).bases()[i1],
                second: Some(table_of(c2).bases()[i2]),
                third: Some(table_of(c3).bases()[i3]),
            },
        ),
{
    let b1 = table_of(c1).bases();
    let b2 = table_of(c2).bases();
    let b3 = table_of(c3).bases();
    let n1 = b1.len() as int;
    let n2 = b2.len() as int;
    let n3 = b3.len() as int;
    let one = starts(b1);
    let two = extend(one, b2);
    let e = extend(two, b3);
    let m = i1 * n2 + i2;
    let k = m * n3 + i3;
    assert(m < n1 * n2) by (nonlinear_arith)
        requires
            0 <= i1 < n1,
            0 <= i2 < n2,
            m == i1 * n2 + i2,
    ;
    assert(k < (n1 * n2) * n3) by (nonlinear_arith)
        requires
            0 <= m < n1 * n2,
            0 <= i3 < n3,
            k == m * n3 + i3,
    ;
    assert(0 <= m) by (nonlinear_arith)
        requires
            0 <= i1,
            0 <= i2,
            0 < n2,
            m == i1 * n2 + i2,
    ;
    assert(0 <= k) by (nonlinear_arith)
        requires
            0 <= m,
            0 <= i3,
            0 < n3,
            k == m * n3 + i3,
    ;
    lemma_fundamental_div_mod_converse(m, n2, i1, i2);
    lemma_fundamental_div_mod_converse(k, n3, m, i3);
    assert(one.len() == n1);
    assert(two.len() == n1 * n2);
    assert(e[k] == with_next(two[m], b3[i3]));
    assert(two[m] == with_next(one[i1], b2[i2]));
    assert(e == expansion(c1, c2, c3));
}

/// Whether three letters spell the start codon plainly: A, then T or U, then G.
pub open spec fn is_plain_start(l1: char, l2: char, l3: char) -> bool {
    l1 == 'A' && (l2 == 'T' || l2 == 'U') && l3 == 'G'
}

/// A triplet is a start codon only when it is written plainly as AUG (or ATG):
/// any ambiguity lets some codon translate to something other than methionine.
pub proof fn lemma_start_needs_plain_aug(l1: char, l2: char, l3: char)
    requires
        letters_expansion(l1, l2, l3) is Ok,
        forall|k: int|
            0 <= k < letters_expansion(l1, l2, l3)->Ok_0.len()
                ==> (#[trigger] letters_expansion(l1, l2, l3)->Ok_0[k]).translation() == Some('M'),
    ensures
        is_plain_start(l1, l2, l3),
{
    assert(letter_code(l1) is Some && letter_code(l2) is Some && letter_code(l3) is Some);
    let c1 = letter_code(l1)->Some_0;
    let c2 = letter_code(l2)->Some_0;
    let c3 = letter_code(l3)->Some_0;
    let e = expansion(c1, c2, c3);
    assert(letters_expansion(l1, l2, l3)->Ok_0 == e);
    let b1 = table_of(c1).bases();
    let b2 = table_of(c2).bases();
    let b3 = table_of(c3).bases();
    lemma_other_base(c1, Base::A);
    lemma_other_base(c2, Base::U);
    lemma_other_base(c3, Base::G);
    let i1: int = if b1[0] != Base::A { 0 } else if c1 == AmbiguousBases::A { 0 } else { 1 };
    let i2: int = if b2[0] != Base::U { 0 } else if c2 == AmbiguousBases::U { 0 } else { 1 };
    let i3: int = if b3[0] != Base::G { 0 } else if c3 == AmbiguousBases::G { 0 } else { 1 };
    lemma_expansion_member(c1, c2, c3, i1, i2, i3);
    let ch = Chain { first: b1[i1], second: Some(b2[i2]), third: Some(b3[i3]) };
    let k = choose|k: int| 0 <= k < e.len() && e[k] == ch;
    assert(e[k].translation() == Some('M'));
    reveal_with_fuel(PossibilityTable::bases_from, 5);
}

} // verus!
