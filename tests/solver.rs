use codon_solver::error::FactoringError;
use codon_solver::order::normalize;
use codon_solver::scanner::{combine, possibilities};
use codon_solver::solver::{possible_chains, AmbiguousBases, Base, Chain, Possibilities};

fn strings(v: &[&str]) -> Vec<String> {
    v.iter().map(|s| s.to_string()).collect()
}

fn chars(v: &[&str]) -> Vec<Vec<char>> {
    v.iter().map(|s| s.chars().collect()).collect()
}

fn chain(f: Base, s: Base, t: Base) -> Chain {
    let mut c = Chain::new(f);
    c.insert(s).unwrap();
    c.insert(t).unwrap();
    c
}

#[test]
fn test() {
    const SEQ: &str = "5ATGATGGARTGGATGGARTGGAAYTAYGCN3";
    assert_eq!(possibilities(SEQ), Ok(vec![String::from("MEWMEWNYA")]))
}

#[test]
fn single_orf_with_stop() {
    // The start codon anchors the frame; its own letter is not emitted.
    assert_eq!(possibilities("ATGAAATAA"), Ok(strings(&["K"])));
}

#[test]
fn unknown_letter_fails() {
    assert_eq!(
        possibilities("ATGXXXTAA"),
        Err(FactoringError::LetterNotAmbiguousBase('X'))
    );
}

#[test]
fn unknown_letter_before_start_fails() {
    assert_eq!(
        possibilities("CCZ"),
        Err(FactoringError::LetterNotAmbiguousBase('Z'))
    );
}

#[test]
fn no_start_codon_gives_nothing() {
    assert_eq!(possibilities("AAACCCGGGUUU"), Ok(vec![]));
    assert_eq!(possibilities(""), Ok(vec![]));
}

#[test]
fn unterminated_orf_is_reported() {
    assert_eq!(possibilities("ATGAAA"), Ok(strings(&["K"])));
    assert_eq!(possibilities("CCATGGGG"), Ok(strings(&["G"])));
}

#[test]
fn two_orfs_cross_product() {
    assert_eq!(possibilities("ATGAAATAAATGCCCTAA"), Ok(strings(&["K P"])));
    assert_eq!(
        possibilities("ATGRAATAAATGTWCTAA"),
        Ok(strings(&["E F", "E Y", "K F", "K Y"]))
    );
}

#[test]
fn markers_are_honoured() {
    assert_eq!(possibilities("5ATGAAA3CCC"), Ok(strings(&["K"])));
    assert_eq!(possibilities("ATG3AAA"), Ok(vec![]));
    assert_eq!(
        possibilities("A5TGAAA"),
        Err(FactoringError::LetterNotAmbiguousBase('5'))
    );
}

#[test]
fn ambiguous_start_must_resolve_to_methionine() {
    // AUR is AUA (I) or AUG (M): not a start codon.
    assert_eq!(possibilities("ATRAAATAA"), Ok(vec![]));
}

#[test]
fn any_stop_outcome_ends_the_segment() {
    // YAA is CAA (Q) or UAA (stop): the segment ends there.
    assert_eq!(possibilities("ATGAAAYAAGGG"), Ok(strings(&["K"])));
}

#[test]
fn ambiguous_codon_branches_and_sorts() {
    assert_eq!(possibilities("ATGTWC"), Ok(strings(&["F", "Y"])));
}

#[test]
fn unambiguous_codon_expands_to_one() {
    for t in ["ATG", "UUU", "GCA", "TAC"] {
        let l: Vec<char> = t.chars().collect();
        let v = possible_chains(l[0], l[1], l[2]).unwrap();
        assert_eq!(v.len(), 1);
    }
    let v = possible_chains('A', 'T', 'G').unwrap();
    assert_eq!(v[0], chain(Base::A, Base::U, Base::G));
}

#[test]
fn all_n_codon_expands_to_every_triple() {
    let v = possible_chains('N', 'N', 'N').unwrap();
    assert_eq!(v.len(), 64);
    let bases = [Base::A, Base::C, Base::G, Base::U];
    for f in bases {
        for s in bases {
            for t in bases {
                let c = chain(f, s, t);
                assert_eq!(v.iter().filter(|x| **x == c).count(), 1);
            }
        }
    }
}

#[test]
fn expansion_reports_the_bad_letter() {
    assert_eq!(
        possible_chains('A', 'Q', 'G'),
        Err(FactoringError::LetterNotAmbiguousBase('Q'))
    );
    assert_eq!(possible_chains('R', 'Y', 'N').unwrap().len(), 16);
}

#[test]
fn genetic_code_spot_checks() {
    assert_eq!(chain(Base::A, Base::U, Base::G).finalise(), Ok(Some('M')));
    assert_eq!(chain(Base::U, Base::G, Base::G).finalise(), Ok(Some('W')));
    assert_eq!(chain(Base::U, Base::A, Base::A).finalise(), Ok(None));
    assert_eq!(chain(Base::U, Base::A, Base::G).finalise(), Ok(None));
    assert_eq!(chain(Base::U, Base::G, Base::A).finalise(), Ok(None));
    for t in [Base::G, Base::A, Base::C, Base::U] {
        assert_eq!(chain(Base::G, Base::G, t).finalise(), Ok(Some('G')));
    }
    assert_eq!(chain(Base::U, Base::U, Base::A).finalise(), Ok(Some('L')));
    assert_eq!(chain(Base::A, Base::G, Base::C).finalise(), Ok(Some('S')));
    assert_eq!(chain(Base::C, Base::A, Base::U).finalise(), Ok(Some('H')));
}

#[test]
fn genetic_code_is_total() {
    let bases = [Base::A, Base::C, Base::G, Base::U];
    let mut stops = 0;
    for f in bases {
        for s in bases {
            for t in bases {
                match chain(f, s, t).finalise() {
                    Ok(None) => stops += 1,
                    Ok(Some(_)) => {}
                    Err(e) => panic!("{:?}", e),
                }
            }
        }
    }
    assert_eq!(stops, 3);
}

#[test]
fn chain_slots() {
    let mut c = Chain::new(Base::A);
    assert_eq!(c.finalise(), Err(FactoringError::FinaliseCalledOnIncompleteChain(c)));
    c.insert(Base::C).unwrap();
    assert_eq!(c.finalise(), Err(FactoringError::FinaliseCalledOnIncompleteChain(c)));
    c.insert(Base::G).unwrap();
    let full = c;
    assert_eq!(
        c.insert(Base::U),
        Err(FactoringError::AttemptedInsertionOnFullChain(full, Base::U))
    );
    assert_eq!(c, full);
}

#[test]
fn letters_parse() {
    assert_eq!(AmbiguousBases::from_char('T'), Ok(AmbiguousBases::U));
    assert_eq!(AmbiguousBases::from_char('U'), Ok(AmbiguousBases::U));
    assert_eq!(AmbiguousBases::from_char('N'), Ok(AmbiguousBases::N));
    assert_eq!(
        AmbiguousBases::from_char('a'),
        Err(FactoringError::LetterNotAmbiguousBase('a'))
    );
}

#[test]
fn table_lookup_and_iteration() {
    let p = Possibilities::iupac();
    let b = p.index(AmbiguousBases::B);
    assert!(!b.index(Base::A) && b.index(Base::C));
    assert_eq!(b.to_vec(), vec![Base::C, Base::G, Base::U]);
    let mut it = p.index(AmbiguousBases::W).into_iter();
    assert_eq!(it.next(), Some(Base::A));
    assert_eq!(it.next(), Some(Base::U));
    assert_eq!(it.next(), None);
}

#[test]
fn normalize_dedups_sorts_and_is_idempotent() {
    let once = normalize(chars(&["MK", "ME", "MK", "M", "MKA"]));
    assert_eq!(once, chars(&["M", "ME", "MK", "MKA"]));
    assert_eq!(normalize(once.clone()), once);
    assert_eq!(normalize(vec![]), Vec::<Vec<char>>::new());
}

#[test]
fn combine_segments() {
    let segs = vec![chars(&["A", "B"]), vec![], chars(&["C", "D"])];
    assert_eq!(combine(&segs), chars(&["A C", "A D", "B C", "B D"]));
    assert_eq!(combine(&vec![]), Vec::<Vec<char>>::new());
    assert_eq!(combine(&vec![chars(&["X", "Y"])]), chars(&["X", "Y"]));
}

#[test]
fn expansion_order_first_position_outermost() {
    let v = possible_chains('R', 'A', 'Y').unwrap();
    assert_eq!(
        v,
        vec![
            chain(Base::A, Base::A, Base::C),
            chain(Base::A, Base::A, Base::U),
            chain(Base::G, Base::A, Base::C),
            chain(Base::G, Base::A, Base::U),
        ]
    );
}

#[test]
fn unknown_letter_after_complete_segment_fails() {
    assert_eq!(
        possibilities("ATGAAATAAX"),
        Err(FactoringError::LetterNotAmbiguousBase('X'))
    );
    assert_eq!(
        possibilities("ATGQAZ"),
        Err(FactoringError::LetterNotAmbiguousBase('Q'))
    );
}

#[test]
fn ambiguous_near_start_gives_nothing() {
    assert_eq!(possibilities("AUNAUR"), Ok(vec![]));
    assert_eq!(possibilities("CCCGGG"), Ok(vec![]));
}

#[test]
fn appending_stop_changes_nothing() {
    assert_eq!(possibilities("ATGAAAGGN"), possibilities("ATGAAAGGNTAA"));
    assert_eq!(
        possibilities("ATGAARCCC"),
        Ok(strings(&["KP"]))
    );
}
