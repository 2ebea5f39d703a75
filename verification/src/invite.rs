//! The decisions of the invite-persistence task: events arrive over a
//! channel and update an in-memory set of channel names; the caller
//! persists the set when it changed and stops on the quit sentinel.

use vstd::prelude::*;

verus! {

/// One persistence event: joined a channel by invite, kicked out of one,
/// or the explicit quit sentinel sent during shutdown.
pub enum InviteMsg {
    Joined(String),
    Kicked(String),
    Quit,
}

/// The names held by a sequence of strings.
pub open spec fn name_views(v: Seq<String>) -> Seq<Seq<char>> {
    v.map_values(|s: String| s@)
}

/// First index holding `c`, or the length of `vs`.
pub open spec fn find_name(vs: Seq<Seq<char>>, c: Seq<char>, i: int) -> int
    recommends
        0 <= i,
    decreases vs.len() - i when 0 <= i <= vs.len()
{
    if i >= vs.len() {
        vs.len() as int
    } else if vs[i] == c {
        i
    } else {
        find_name(vs, c, i + 1)
    }
}

proof fn lemma_find_name_bounds(vs: Seq<Seq<char>>, c: Seq<char>, i: int)
    requires
        0 <= i <= vs.len(),
    ensures
        i <= find_name(vs, c, i) <= vs.len(),
        find_name(vs, c, i) < vs.len() ==> vs[find_name(vs, c, i)] == c,
        forall|k: int| i <= k < find_name(vs, c, i) ==> vs[k] != c,
    decreases vs.len() - i,
{
    if i < vs.len() && vs[i] != c {
        lemma_find_name_bounds(vs, c, i + 1);
    }
}

/// No name occurs twice.
pub open spec fn distinct_names(vs: Seq<Seq<char>>) -> bool {
    forall|i: int, j: int| 0 <= i < j < vs.len() ==> vs[i] != vs[j]
}

/// First index of `c` among the names of `invites`, or their number.
fn position_of(invites: &Vec<String>, c: &String) -> (r: usize)
    ensures
        r == find_name(name_views(invites@), c@, 0),
        r <= invites@.len(),
{
    let ghost vs = name_views(invites@);
    let n = invites.len();
    let mut i: usize = 0;
    while i < n
        invariant
            i <= n,
            n == invites@.len(),
            vs == name_views(invites@),
            find_name(vs, c@, 0) == find_name(vs, c@, i as int),
        decreases n - i,
    {
        if invites[i].eq(c) {
            proof {
                assert(vs[i as int] == c@);
            }
            return i;
        }
        proof {
            assert(vs[i as int] != c@);
        }
        i = i + 1;
    }
    i
}

/// Apply one event to the set.  A join inserts the name if it is new, a
/// kick removes it if present; `changed` says whether the set moved and
/// so needs persisting, `quit` whether the sentinel arrived.
pub fn apply_invite(invites: &mut Vec<String>, msg: InviteMsg) -> (r: (bool, bool))
    requires
        distinct_names(name_views(old(invites)@)),
    ensures
        distinct_names(name_views(final(invites)@)),
        ({
            let vs = name_views(old(invites)@);
            let out = name_views(final(invites)@);
            match msg {
                InviteMsg::Joined(c) => {
                    let k = find_name(vs, c@, 0);
                    &&& !r.1
                    &&& r.0 == (k == vs.len())
                    &&& if k == vs.len() {
                        out == vs.push(c@)
                    } else {
                        out == vs
                    }
                },
                InviteMsg::Kicked(c) => {
                    let k = find_name(vs, c@, 0);
                    &&& !r.1
                    &&& r.0 == (k < vs.len())
                    &&& if k < vs.len() {
                        out == vs.remove(k)
                    } else {
                        out == vs
                    }
                },
                InviteMsg::Quit => r.1 && !r.0 && out == vs,
            }
        }),
{
    let ghost vs = name_views(invites@);
    match msg {
        InviteMsg::Joined(c) => {
            let k = position_of(invites, &c);
            proof {
                lemma_find_name_bounds(vs, c@, 0);
            }
            if k == invites.len() {
                let ghost cv = c@;
                invites.push(c);
                proof {
                    assert(name_views(invites@) =~= vs.push(cv));
                    assert forall|i: int, j: int|
                        0 <= i < j < name_views(invites@).len() implies name_views(invites@)[i]
                        != name_views(invites@)[j] by {
                        if j == vs.len() {
                            assert(vs[i] != cv);
                        }
                    }
                }
                (true, false)
            } else {
                proof {
                    assert(name_views(invites@) =~= vs);
                }
                (false, false)
            }
        },
        InviteMsg::Kicked(c) => {
            let k = position_of(invites, &c);
            proof {
                lemma_find_name_bounds(vs, c@, 0);
            }
            if k < invites.len() {
                invites.remove(k);
                proof {
                    assert(name_views(invites@) =~= vs.remove(k as int));
                }
                (true, false)
            } else {
                proof {
                    assert(name_views(invites@) =~= vs);
                }
                (false, false)
            }
        },
        InviteMsg::Quit => {
            proof {
                assert(name_views(invites@) =~= vs);
            }
            (false, true)
        },
    }
}

} // verus!
