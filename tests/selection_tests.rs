use hanzi_deck::entry::{CommonEntry, EntryId, WordEntry};
use hanzi_deck::outside::Segmenter;
use hanzi_deck::selection::select;
use hanzi_deck::store::EntryStore;

fn word(id: &str) -> CommonEntry {
    CommonEntry::WordEntry(WordEntry::from_id(id.to_string()))
}

fn closed(deps: &Vec<Vec<usize>>, out: &Vec<usize>) -> bool {
    for (i, e) in out.iter().enumerate() {
        for d in deps[*e].iter() {
            if !out[..i].contains(d) {
                return false;
            }
        }
    }
    true
}

#[test]
fn dependency_order_scenario() {
    // 你好 (0.9) depends on 你 (0.95) and 好 (0.85)
    let mut store = EntryStore::new();
    assert!(store.upsert(word("你好")).is_ok());
    assert!(store.upsert(word("你")).is_ok());
    assert!(store.upsert(word("好")).is_ok());
    let prio = vec![900_000u64, 950_000, 850_000];
    let seg = Segmenter::new();
    let out = store.select_entries(&prio, &seg, 3, 900_000);
    let ids: Vec<String> = out
        .iter()
        .map(|i| store.entries()[*i].id().text().clone())
        .collect();
    let a = vec!["你".to_string(), "好".to_string(), "你好".to_string()];
    let b = vec!["好".to_string(), "你".to_string(), "你好".to_string()];
    assert!(ids == a || ids == b, "{:?}", ids);
    // with a cap of one, only the highest-priority seed comes out
    assert_eq!(store.select_entries(&prio, &seg, 1, 900_000), vec![1]);
}

#[test]
fn cap_and_threshold_respected() {
    let prio = vec![10u64, 50, 40, 30, 20];
    let deps: Vec<Vec<usize>> = vec![vec![], vec![0], vec![], vec![2], vec![]];
    let out = select(&prio, &deps, 2, 25);
    assert!(out.len() <= 2);
    // the seed worklist is {1, 2}: entry 1 needs 0 first
    assert_eq!(out, vec![0, 1]);
    let out = select(&prio, &deps, 10, 25);
    assert_eq!(out, vec![0, 1, 2, 3]);
    assert!(closed(&deps, &out));
}

#[test]
fn below_threshold_only_as_dependency() {
    let prio = vec![5u64, 100];
    let deps: Vec<Vec<usize>> = vec![vec![], vec![0]];
    assert_eq!(select(&prio, &deps, 10, 50), vec![0, 1]);
    assert_eq!(select(&prio, &deps, 10, 200), Vec::<usize>::new());
}

#[test]
fn reselection_is_idempotent() {
    let prio = vec![3u64, 9, 9, 1, 7, 7];
    let deps: Vec<Vec<usize>> = vec![vec![3], vec![0, 4], vec![5, 3], vec![], vec![3], vec![]];
    let a = select(&prio, &deps, 6, 0);
    let b = select(&prio, &deps, 6, 0);
    assert_eq!(a, b);
    assert!(closed(&deps, &a));
    assert_eq!(a.len(), 6);
}

#[test]
fn dependencies_ordered_by_priority() {
    // entry 0 needs 1 (low) and 2 (high): the frontier is sorted ascending and
    // taken from its end
    let prio = vec![100u64, 10, 20];
    let deps: Vec<Vec<usize>> = vec![vec![2, 1], vec![], vec![]];
    assert_eq!(select(&prio, &deps, 3, 50), vec![2, 1, 0]);
}

#[test]
fn cycle_does_not_hang() {
    let prio = vec![10u64, 20];
    let deps: Vec<Vec<usize>> = vec![vec![1], vec![0]];
    let out = select(&prio, &deps, 5, 0);
    assert_eq!(out.len(), 2);
}

#[test]
fn missing_dependency_is_satisfied() {
    let mut store = EntryStore::new();
    assert!(store.upsert(word("学生")).is_ok());
    let prio = vec![500_000u64];
    let seg = Segmenter::new();
    let out = store.select_entries(&prio, &seg, 5, 0);
    assert_eq!(out, vec![0]);
    let graph = store.dependency_graph(&seg);
    assert_eq!(graph, vec![Vec::<usize>::new()]);
    let id = EntryId::Word("学生".to_string());
    assert_eq!(store.find(&id), Some(0));
}
