use sudoku_engine::state::State;
use sudoku_engine::types::{bit_of_digit, CellIx, Domain, DIGITS_MASK};

fn mask(digits: &[u8]) -> Domain {
    digits.iter().fold(0, |acc, &d| acc | bit_of_digit(d))
}

#[test]
fn new_initializes_domains_trail_and_queue() {
    let st = State::new();

    // all domains should be full DIGITS_MASK
    for (i, d) in st.domains.iter().enumerate() {
        assert_eq!(
            *d, DIGITS_MASK,
            "domain at index {} not initialized to DIGITS_MASK",
            i
        );
    }

    assert!(st.trail.is_empty());
    assert!(st.queue.is_empty());
}

#[test]
fn narrow_reduced_domain_and_records_trail() {
    let mut st = State::new();
    let i: CellIx = 5;

    // start with full domain, narrow to {3,4}
    let old = st.domains[i as usize];
    let new_mask = mask(&[3, 4]);

    let changed = st.narrow(i, new_mask).unwrap();
    assert!(changed);

    assert_eq!(st.domains[i as usize], new_mask);
    assert_eq!(st.trail.len(), 1);
    assert_eq!(st.trail[0], (i, old));
}

#[test]
fn narrow_no_change_when_mask_is_superset() {
    let mut st = State::new();
    let i: CellIx = 7;

    // domain is {3,4,5}
    let domain = mask(&[3, 4, 5]);
    st.domains[i as usize] = domain;

    // mask still allows all of them -> no change
    let mask_superset = mask(&[1, 2, 3, 4, 5]);
    let changed = st.narrow(i, mask_superset).unwrap();

    assert!(!changed);
    assert_eq!(st.domains[i as usize], domain);
    assert!(st.trail.is_empty());
}

#[test]
fn narrow_contradiction_when_mask_wipes_out_domain() {
    let mut st = State::new();
    let i: CellIx = 3;

    st.domains[i as usize] = mask(&[1, 2, 3]);

    // mask excludes 1,2,3 -> new = 0 -> Contradiction
    let mask_zero = mask(&[4, 5, 6]);
    let res = st.narrow(i, mask_zero);

    assert!(res.is_err());
    assert_eq!(st.domains[i as usize], mask(&[1, 2, 3]));
    assert!(st.trail.is_empty());
}

#[test]
fn assign_behaves_like_narrow_for_single_bit() {
    let mut st = State::new();
    let i: CellIx = 10;

    let single = bit_of_digit(7);

    let changed = st.assign(i, single).unwrap();

    assert!(changed);
    assert_eq!(st.domains[i as usize], single);
    assert_eq!(st.trail.len(), 1);
    assert_eq!(st.trail[0], (i, DIGITS_MASK));
}

#[test]
fn backtrack_restores_previous_domains() {
    let mut st = State::new();
    let i: CellIx = 0;
    let j: CellIx = 1;

    // first change: narrow cell i
    let trail_len0 = st.trail.len();
    st.narrow(i, mask(&[1, 2, 3])).unwrap();
    let trail_len1 = st.trail.len();
    assert_eq!(trail_len1, trail_len0 + 1);

    // second change: narrow cell j
    st.narrow(j, mask(&[4, 5, 6])).unwrap();
    let trail_len2 = st.trail.len();
    assert_eq!(trail_len2, trail_len1 + 1);

    // backtrack to trail_len1
    // gets rid of change on cell j
    st.backtrack_to(trail_len1);
    assert_eq!(st.trail.len(), trail_len1);

    // backtrack all the way
    st.backtrack_to(trail_len0);
    assert_eq!(st.trail.len(), trail_len0);
    assert_eq!(st.domains[i as usize], DIGITS_MASK);
}

#[test]
fn backtrack_to_noop_when_trail_already_shorter() {
    let mut st = State::new();
    let i: CellIx = 0;

    st.narrow(i, mask(&[1, 2, 3])).unwrap();
    let trail_len = st.trail.len();
    assert_eq!(trail_len, 1);

    // backtrack to a larger number than current length should do nothing
    st.backtrack_to(10);
    assert_eq!(st.trail.len(), 1);
}

#[test]
fn narrowing_never_adds_a_candidate() {
    let mut st = State::new();
    let masks = [mask(&[1, 2, 3, 4]), mask(&[2, 3, 9]), mask(&[3, 5]), mask(&[7]), mask(&[3])];
    let mut before = st.domains[12].count_ones();
    for m in masks {
        let held = st.domains[12];
        let _ = st.narrow(12, m);
        let now = st.domains[12];
        assert_eq!(now & held, now);
        assert!(now.count_ones() <= before);
        assert_ne!(now, 0);
        before = now.count_ones();
    }
    assert_eq!(st.domains[12], mask(&[3]));
    assert_eq!(st.trail.len(), 3);
}

#[test]
fn restore_gives_back_the_domains_of_each_checkpoint() {
    let mut st = State::new();
    let mut snapshots = vec![(st.checkpoint(), st.domains)];
    let steps: [(CellIx, Domain); 6] = [
        (0, mask(&[1, 2, 3])),
        (80, mask(&[9])),
        (0, mask(&[2, 3, 4])),
        (40, mask(&[4, 5])),
        (0, mask(&[7])),
        (40, mask(&[5])),
    ];
    for (i, m) in steps {
        let _ = st.narrow(i, m);
        snapshots.push((st.checkpoint(), st.domains));
    }
    assert_eq!(st.checkpoint(), 5);
    while let Some((len, domains)) = snapshots.pop() {
        st.backtrack_to(len);
        assert_eq!(st.checkpoint(), len);
        assert_eq!(st.domains, domains);
    }
    assert_eq!(st.domains, [DIGITS_MASK; 81]);
    assert!(st.trail.is_empty());
}

#[test]
fn restore_writes_back_in_reverse_order() {
    let mut st = State::new();
    st.narrow(4, mask(&[1, 2, 3])).unwrap();
    st.narrow(4, mask(&[1, 2])).unwrap();
    st.narrow(4, mask(&[2])).unwrap();
    assert_eq!(st.trail, vec![(4, DIGITS_MASK), (4, mask(&[1, 2, 3])), (4, mask(&[1, 2]))]);
    st.backtrack_to(1);
    assert_eq!(st.domains[4], mask(&[1, 2, 3]));
    assert_eq!(st.trail, vec![(4, DIGITS_MASK)]);
}

#[test]
fn snapshot_shifts_every_domain_down_by_one() {
    let mut st = State::new();
    st.narrow(0, mask(&[1])).unwrap();
    st.narrow(1, mask(&[9])).unwrap();
    st.narrow(2, mask(&[2, 4])).unwrap();
    let masks = st.snapshot();
    assert_eq!(masks.len(), 81);
    assert_eq!(masks[0], 0b0_0000_0001);
    assert_eq!(masks[1], 0b1_0000_0000);
    assert_eq!(masks[2], 0b0_0000_1010);
    assert_eq!(masks[3], 0b1_1111_1111);
}

#[test]
fn checkpoint_is_the_trail_length() {
    let mut st = State::new();
    assert_eq!(st.checkpoint(), 0);
    st.narrow(3, mask(&[1, 2])).unwrap();
    assert_eq!(st.checkpoint(), 1);
    assert!(!st.narrow(3, mask(&[1, 2, 3])).unwrap());
    assert_eq!(st.checkpoint(), 1);
    assert!(st.narrow(3, mask(&[5])).is_err());
    assert_eq!(st.checkpoint(), 1);
}
