use ods::SEList;
use ods::SLList;

#[test]
fn se_list_works() {
    let mut list = SEList::new();

    list.push_back(1);
    list.push_back(2);
    list.push_back(3);
    list.push_back(4);

    assert_eq!(list.get(0), Some(&1));
    assert_eq!(list.get(1), Some(&2));
    assert_eq!(list.get(2), Some(&3));
    assert_eq!(list.get(3), Some(&4));

    list.add(0, -1);
    list.add(0, -2);
    assert_eq!(list.get(0), Some(&-2));
    assert_eq!(list.get(1), Some(&-1));
    assert_eq!(list.get(2), Some(&1));

    list.add(2, 0);
    assert_eq!(list.get(1), Some(&-1));
    assert_eq!(list.get(2), Some(&0));
    assert_eq!(list.get(3), Some(&1));

    assert_eq!(list.remove(2), Some(0));
    assert_eq!(list.get(0), Some(&-2));
    assert_eq!(list.get(1), Some(&-1));
    assert_eq!(list.get(2), Some(&1));

    assert_eq!(list.remove(0), Some(-2));
    assert_eq!(list.remove(0), Some(-1));
    assert_eq!(list.remove(0), Some(1));
    assert_eq!(list.remove(0), Some(2));
    assert_eq!(list.remove(0), Some(3));
    assert_eq!(list.remove(0), Some(4));
    assert_eq!(list.remove(0), None);

    for i in 0i64..36 {
        list.add(0, 35 - i);
    }
    for i in 0i64..36 {
        assert_eq!(list.get(i as usize), Some(&i));
    }
    for i in 0..36 {
        assert_eq!(list.remove(0), Some(i));
    }
}

#[test]
fn sl_list_it_works() {
    assert_eq!(2 + 2, 4);
}

#[test]
fn se_list_scenario_mixed_ends() {
    let mut list = SEList::new();
    list.push_back(1);
    list.push_back(2);
    list.push_back(3);
    list.push_back(4);
    for i in 0..4 {
        assert_eq!(list.get(i), Some(&(i as i64 + 1)));
    }
    list.add(0, -1);
    list.add(0, -2);
    let after_front = [-2, -1, 1, 2, 3, 4];
    for (i, x) in after_front.iter().enumerate() {
        assert_eq!(list.get(i), Some(x));
    }
    list.add(2, 0);
    let after_mid = [-2, -1, 0, 1, 2, 3, 4];
    for (i, x) in after_mid.iter().enumerate() {
        assert_eq!(list.get(i), Some(x));
    }
    assert_eq!(list.remove(2), Some(0));
    for (i, x) in after_front.iter().enumerate() {
        assert_eq!(list.get(i), Some(x));
    }
}

#[test]
fn se_list_rebalancing_stress() {
    // repeated front insertion forces the chain to spread again and again
    let mut list = SEList::new();
    for i in 0i64..36 {
        list.add(0, 35 - i);
    }
    assert_eq!(list.size(), 36);
    for i in 0i64..36 {
        assert_eq!(list.get(i as usize), Some(&i));
    }
    // draining from the front forces gathers; the order is kept throughout
    for i in 0i64..36 {
        assert_eq!(list.remove(0), Some(i));
    }
    assert_eq!(list.remove(0), None);
    assert_eq!(list.size(), 0);
}

#[test]
fn se_list_round_trip() {
    for n in [0usize, 1, 4, 5, 25] {
        let mut list = SEList::new();
        for i in 0..n {
            list.push_back(i as i64);
        }
        assert_eq!(list.size(), n);
        for i in 0..n {
            assert_eq!(list.get(i), Some(&(i as i64)));
        }
        assert_eq!(list.get(n), None);
    }
}

#[test]
fn se_list_out_of_range_leaves_state() {
    let mut list = SEList::new();
    list.push_back(7);
    list.push_back(8);
    assert_eq!(list.get(2), None);
    assert_eq!(list.set(2, 0), None);
    assert_eq!(list.remove(2), None);
    list.add(3, 0);
    assert_eq!(list.size(), 2);
    assert_eq!(list.get(0), Some(&7));
    assert_eq!(list.get(1), Some(&8));
}

#[test]
fn se_list_boundary_inserts_keep_order() {
    let mut list = SEList::new();
    for i in 0i64..10 {
        list.push_back(i);
    }
    let n = list.size();
    list.add(0, -100);
    list.add(list.size(), 100);
    let mid = list.size() / 2;
    list.add(mid, 50);
    assert_eq!(list.size(), n + 3);
    // the old elements keep their relative order
    let mut previous = i64::MIN;
    let mut seen = 0;
    for i in 0..list.size() {
        let v = *list.get(i).unwrap();
        if (0..10).contains(&v) {
            assert!(v > previous || seen == 0);
            previous = v;
            seen += 1;
        }
    }
    assert_eq!(seen, 10);
    assert_eq!(list.get(0), Some(&-100));
    assert_eq!(list.get(list.size() - 1), Some(&100));
    assert_eq!(list.get(mid), Some(&50));
}

#[test]
fn se_list_count_tracks_changes() {
    let mut list = SEList::new();
    let mut expected: usize = 0;
    for i in 0i64..20 {
        list.push_back(i);
        expected += 1;
        assert_eq!(list.size(), expected);
    }
    for i in 0i64..5 {
        list.add(3, 100 + i);
        expected += 1;
        assert_eq!(list.size(), expected);
    }
    for _ in 0..8 {
        assert!(list.remove(1).is_some());
        expected -= 1;
        assert_eq!(list.size(), expected);
    }
    // a failed removal or insertion changes nothing
    assert_eq!(list.remove(1000), None);
    list.add(1000, 0);
    assert_eq!(list.size(), expected);
}

#[test]
fn se_list_matches_plain_vector() {
    // differential run against a growable array, with a small arithmetic
    // generator choosing the operations
    let mut list = SEList::new();
    let mut model: Vec<i64> = Vec::new();
    let mut state: u64 = 0x2545f491_4f6c_dd1d;
    for step in 0..400u64 {
        state = state.wrapping_mul(6364136223846793005).wrapping_add(1442695040888963407);
        let idx = if model.is_empty() {
            0
        } else {
            (state >> 33) as usize % (model.len() + 1)
        };
        let value = (state >> 17) as i64 % 1000;
        match step % 4 {
            0 | 1 => {
                list.add(idx, value);
                if idx <= model.len() {
                    model.insert(idx, value);
                }
            }
            2 => {
                let got = list.set(idx, value);
                if idx < model.len() {
                    assert_eq!(got, Some(model[idx]));
                    model[idx] = value;
                } else {
                    assert_eq!(got, None);
                }
            }
            _ => {
                let got = list.remove(idx);
                if idx < model.len() {
                    assert_eq!(got, Some(model.remove(idx)));
                } else {
                    assert_eq!(got, None);
                }
            }
        }
        assert_eq!(list.size(), model.len());
        for (i, x) in model.iter().enumerate() {
            assert_eq!(list.get(i), Some(x));
        }
    }
}

#[test]
fn se_list_get_mut_writes_through() {
    let mut list = SEList::new();
    for i in 0i64..9 {
        list.push_back(i);
    }
    if let Some(v) = list.get_mut(6) {
        *v = -6;
    }
    assert_eq!(list.get(6), Some(&-6));
    assert_eq!(list.get_mut(9), None);
}

#[test]
fn sl_list_front_and_back() {
    let mut list = SLList::new();
    assert_eq!(list.pop_front(), None);
    list.push_front(2);
    list.push_front(1);
    list.push_back(3);
    assert_eq!(list.pop_front(), Some(1));
    assert_eq!(list.pop_front(), Some(2));
    assert_eq!(list.pop_front(), Some(3));
    assert_eq!(list.pop_front(), None);
    list.push_back(9);
    assert_eq!(list.pop_front(), Some(9));
}
