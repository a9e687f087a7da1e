//! The process tree of a game: the launcher process and everything it started.
use vstd::prelude::*;

verus! {

/// Whether `s` holds every process whose parent it holds. `procs` lists each
/// process as its id and its parent's id.
pub open spec fn closed_under_children(procs: Seq<(u32, Option<u32>)>, s: Set<u32>) -> bool {
    forall|i: int|
        0 <= i < procs.len() && (#[trigger] procs[i]).1 is Some && s.contains(procs[i].1.unwrap())
            ==> s.contains(procs[i].0)
}

/// Whether `pid` is `root` or descends from it: it lies in every set that holds
/// `root` and the children of its members.
pub open spec fn in_tree(procs: Seq<(u32, Option<u32>)>, root: u32, pid: u32) -> bool {
    forall|t: Set<u32>| #[trigger] t.contains(root) && closed_under_children(procs, t) ==> t.contains(pid)
}

fn contains_pid(v: &Vec<u32>, x: u32) -> (b: bool)
    ensures
        b == v@.contains(x),
{
    let mut i: usize = 0;
    while i < v.len()
        invariant
            i <= v@.len(),
            forall|j: int| 0 <= j < i ==> v@[j] != x,
        decreases v@.len() - i,
    {
        if v[i] == x {
            return true;
        }
        i = i + 1;
    }
    false
}

pub open spec fn candidates(procs: Seq<(u32, Option<u32>)>, root: u32) -> Seq<u32> {
    seq![root] + procs.map_values(|p: (u32, Option<u32>)| p.0)
}

proof fn lemma_size_bound(out: Seq<u32>, procs: Seq<(u32, Option<u32>)>, root: u32)
    requires
        out.no_duplicates(),
        forall|x: u32| out.contains(x) ==> #[trigger] candidates(procs, root).contains(x),
    ensures
        out.len() <= procs.len() + 1,
{
    let c = candidates(procs, root);
    out.unique_seq_to_set();
    c.lemma_cardinality_of_set();
    assert(out.to_set().subset_of(c.to_set())) by {
        assert forall|x: u32| out.to_set().contains(x) implies c.to_set().contains(x) by {
            assert(out.contains(x));
        }
    }
    vstd::set_lib::lemma_len_subset(out.to_set(), c.to_set());
}

/// The ids of `root` and of every process descending from it, each once. `procs`
/// lists the running processes, each as its id and its parent's id.
pub fn process_tree(procs: &[(u32, Option<u32>)], root: u32) -> (out: Vec<u32>)
    ensures
        out@.no_duplicates(),
        out@.contains(root),
        closed_under_children(procs@, out@.to_set()),
        forall|x: u32| #[trigger] out@.contains(x) ==> in_tree(procs@, root, x),
{
    let mut out: Vec<u32> = vec![root];
    assert(out@[0] == root);
    assert forall|x: u32| out@.contains(x) implies #[trigger] candidates(procs@, root).contains(x) by {
        assert(candidates(procs@, root)[0] == root);
    }
    assert forall|x: u32| #[trigger] out@.contains(x) implies in_tree(procs@, root, x) by {
    }
    loop
        invariant
            out@.no_duplicates(),
            out@.contains(root),
            forall|x: u32| #[trigger] out@.contains(x) ==> in_tree(procs@, root, x),
            forall|x: u32| out@.contains(x) ==> #[trigger] candidates(procs@, root).contains(x),
        decreases procs@.len() + 1 - out@.len(),
    {
        proof {
            lemma_size_bound(out@, procs@, root);
        }
        let before = out.len();
        let ghost start = out@;
        let mut i: usize = 0;
        while i < procs.len()
            invariant
                i <= procs@.len(),
                before == start.len(),
                out@.len() >= before,
                out@.subrange(0, before as int) == start,
                out@.no_duplicates(),
                out@.contains(root),
                forall|x: u32| #[trigger] out@.contains(x) ==> in_tree(procs@, root, x),
                forall|x: u32| out@.contains(x) ==> #[trigger] candidates(procs@, root).contains(x),
                out@.len() == before ==> forall|j: int|
                    0 <= j < i && (#[trigger] procs@[j]).1 is Some && out@.contains(
                        procs@[j].1.unwrap(),
                    ) ==> out@.contains(procs@[j].0),
            decreases procs@.len() - i,
        {
            let (pid, parent) = procs[i];
            match parent {
                Some(par) => {
                    if contains_pid(&out, par) && !contains_pid(&out, pid) {
                        let ghost prev = out@;
                        out.push(pid);
                        proof {
                            assert(out@.subrange(0, before as int) =~= prev.subrange(0, before as int));
                            assert forall|x: u32| #[trigger] out@.contains(x) implies in_tree(procs@, root, x) by {
                                if x == pid {
                                    assert(in_tree(procs@, root, par));
                                    assert forall|t: Set<u32>|
                                        #[trigger] t.contains(root) && closed_under_children(procs@, t)
                                        implies t.contains(pid) by {
                                        assert(t.contains(par));
                                        assert(procs@[i as int].1 is Some);
                                    }
                                } else {
                                    assert(prev.contains(x));
                                }
                            }
                            assert forall|x: u32| out@.contains(x) implies #[trigger] candidates(procs@, root).contains(x) by {
                                if x == pid {
                                    let c = candidates(procs@, root);
                                    assert(c[i + 1] == pid);
                                } else {
                                    assert(prev.contains(x));
                                }
                            }
                            assert(out@.contains(root)) by {
                                assert(prev.contains(root));
                                let k = choose|k: int| 0 <= k < prev.len() && prev[k] == root;
                                assert(out@[k] == root);
                            }
                        }
                    }
                },
                None => {},
            }
            i = i + 1;
        }
        if out.len() == before {
            proof {
                assert(out@ =~= start);
                assert forall|j: int|
                    0 <= j < procs@.len() && (#[trigger] procs@[j]).1 is Some && out@.to_set().contains(
                        procs@[j].1.unwrap(),
                    ) implies out@.to_set().contains(procs@[j].0) by {
                    assert(out@.contains(procs@[j].1.unwrap()));
                }
                assert forall|x: u32| #[trigger] out@.contains(x) implies in_tree(procs@, root, x) by {
                }
            }
            return out;
        }
        proof {
            lemma_size_bound(out@, procs@, root);
        }
    }
}

} // verus!
