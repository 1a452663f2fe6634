use flat_trie::jump::RawCursor;
use flat_trie::raw::RawTrie;

/// A plain listing of a tree: key, depth and value of each node, in preorder.
type Listing = Vec<(u32, isize, Option<u32>)>;

struct Lcg(u64);

impl Lcg {
    fn next(&mut self, bound: usize) -> usize {
        self.0 = self.0.wrapping_mul(6364136223846793005).wrapping_add(1442695040888963407);
        ((self.0 >> 33) as usize) % bound
    }
}

fn walk(trie: &RawTrie<u32, u32>, cursor: RawCursor, listing: &mut Listing, cursors: &mut Vec<RawCursor>) {
    for child in trie.node_direct_children(cursor) {
        assert!(trie.is_valid_cursor(child));
        listing.push((*trie.get_node(child).unwrap(), child.depth(), trie.get_leaf(child).copied()));
        cursors.push(child);
        walk(trie, child, listing, cursors);
    }
}

fn subtree_end(model: &Listing, pos: isize) -> isize {
    let depth = if pos < 0 { -1 } else { model[pos as usize].1 };
    let mut end = pos;
    while ((end + 1) as usize) < model.len() && model[(end + 1) as usize].1 > depth {
        end += 1;
    }
    end
}

fn run(seed: u64, steps: usize) {
    let mut rng = Lcg(seed);
    let mut trie: RawTrie<u32, u32> = RawTrie::new();
    let mut model: Listing = Vec::new();
    let mut next_key: u32 = 0;
    for _ in 0..steps {
        let mut listing = Vec::new();
        let mut cursors = vec![];
        walk(&trie, RawCursor::root(), &mut listing, &mut cursors);
        assert_eq!(listing, model);
        assert!(trie.verify_tree_integrity());
        assert_eq!(trie.nodes.len(), model.len());
        assert_eq!(trie.leaves.len(), model.iter().filter(|e| e.2.is_some()).count());
        let pick = rng.next(cursors.len() + 1) as isize - 1;
        let cursor = if pick < 0 { RawCursor::root() } else { cursors[pick as usize] };
        if pick >= 0 {
            assert_eq!(cursor.node_index, pick);
            let up = trie.node_parent(cursor).unwrap();
            let d = model[pick as usize].1;
            let mut p = pick - 1;
            while p >= 0 && model[p as usize].1 != d - 1 {
                p -= 1;
            }
            assert_eq!(up.node_index, p);
            assert_eq!(trie.last_child_node(cursor).node_index, subtree_end(&model, pick));
        }
        let prune = rng.next(4) == 0;
        if prune {
            let end = subtree_end(&model, pick);
            let back = trie.prune_node(cursor);
            assert!(trie.is_valid_cursor(back));
            if pick < 0 {
                model.clear();
            } else {
                model.drain(pick as usize..=end as usize);
            }
        } else {
            let len = 1 + rng.next(3);
            let keys: Vec<u32> = (0..len as u32).map(|k| next_key + k).collect();
            next_key += len as u32;
            let value = if rng.next(2) == 0 { Some(1000 + next_key) } else { None };
            let end = subtree_end(&model, pick);
            let depth = if pick < 0 { -1 } else { model[pick as usize].1 };
            let at = trie.insert_nodes_after(cursor, keys.clone(), value);
            assert!(trie.is_valid_cursor(at));
            assert_eq!(at.node_index, end + len as isize);
            assert_eq!(at.depth(), depth + len as isize);
            for (k, key) in keys.iter().enumerate() {
                let v = if k + 1 == len { value } else { None };
                model.insert((end + 1) as usize + k, (*key, depth + 1 + k as isize, v));
            }
        }
    }
    let mut listing = Vec::new();
    let mut cursors = vec![];
    walk(&trie, RawCursor::root(), &mut listing, &mut cursors);
    assert_eq!(listing, model);
    assert!(trie.verify_tree_integrity());
    for entry in &model {
        if let Some(v) = entry.2 {
            let start = cursors[rng.next(cursors.len())];
            let found = trie.find_leaf_after_wrapping_by(start, |l: &u32| *l == v).unwrap();
            assert_eq!(trie.get_leaf(found), Some(&v));
            assert_eq!(trie.get_node(found), Some(&entry.0));
        }
    }
}

#[test]
fn random_inserts_and_prunes_keep_the_listing() {
    for seed in 0..40 {
        run(seed, 60);
    }
}

#[test]
fn long_random_run_keeps_the_listing() {
    run(12345, 400);
}
