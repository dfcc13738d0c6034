use fingers::measure::Length;
use fingers::FingerTree;

type Tree = FingerTree<u64, Length>;

fn from_slice(xs: &[u64]) -> Tree {
    let mut t = Tree::empty();
    for &x in xs {
        t = t.insert_right(x);
    }
    t
}

struct Rng(u64);

impl Rng {
    fn next(&mut self) -> u64 {
        self.0 = self
            .0
            .wrapping_mul(6364136223846793005)
            .wrapping_add(1442695040888963407);
        self.0 >> 16
    }
}

#[test]
fn random_operations_match_a_list_model() {
    let mut rng = Rng(42);
    let mut tree = Tree::empty();
    let mut model: Vec<u64> = Vec::new();
    for step in 0..400u32 {
        match rng.next() % 6 {
            0 => {
                let x = rng.next();
                tree = tree.insert_left(x);
                model.insert(0, x);
            }
            1 => {
                let x = rng.next();
                tree = tree.insert_right(x);
                model.push(x);
            }
            2 => {
                let (rest, x) = tree.remove_left();
                tree = rest;
                let want = if model.is_empty() {
                    None
                } else {
                    Some(model.remove(0))
                };
                assert_eq!(x, want);
            }
            3 => {
                let (rest, x) = tree.remove_right();
                tree = rest;
                let want = model.pop();
                assert_eq!(x, want);
            }
            4 => {
                let extra: Vec<u64> = (0..rng.next() % 7).map(|_| rng.next()).collect();
                tree = tree.append(from_slice(&extra));
                model.extend_from_slice(&extra);
            }
            _ => {
                if !model.is_empty() {
                    let i = (rng.next() as usize) % model.len();
                    let (l, x, r) = tree.split_at(i);
                    assert_eq!(x, Some(model[i]));
                    // Deleting the chosen element recombines the two sides.
                    tree = l.append(r);
                    model.remove(i);
                }
            }
        }
        assert_eq!(tree.measure().0, model.len());
        if step % 25 == 0 {
            // A full comparison consumes the tree; rebuild it from the model.
            let elems = tree.elements();
            assert_eq!(elems, model);
            tree = from_slice(&model);
        }
    }
    assert_eq!(tree.elements(), model);
}
