//! Propagation links and follow sets.
//!
//! Where a configuration inherits the follow set of another, the automaton
//! builder recorded a link back at the inheriting end. The links are first
//! turned round, and the follow sets are then handed along them until
//! nothing changes any more.

use crate::automaton::lemma_config_ok;
use crate::config::{CfgStatus, Config, State};
use crate::grammar::Lemon;
use crate::sets::{
    below, lemma_bounded_finite, lemma_total_len_bound, lemma_total_len_mono, total_len,
};
use crate::shifts::{advances, can_shift, goto_link, linked};
use crate::symbol::Rule;
use vstd::prelude::*;

verus! {

/// The follow sets of the configurations.
pub open spec fn follows(configs: Seq<Config>) -> Seq<Set<usize>> {
    Seq::new(configs.len(), |c: int| configs[c].fws@)
}

/// The `k`-th link forward of configuration `c` is respected by the sets `f`:
/// what the link leads to has all that `c` has.
pub open spec fn link_ok(configs: Seq<Config>, f: Seq<Set<usize>>, c: int, k: int) -> bool {
    f[c].subset_of(f[configs[c].fplp@[k] as int])
}

/// All links forward of configuration `c` are respected by the sets `f`.
pub open spec fn settled(configs: Seq<Config>, f: Seq<Set<usize>>, c: int) -> bool {
    forall|k: int| 0 <= k < configs[c].fplp@.len() ==> #[trigger] link_ok(configs, f, c, k)
}

/// All links forward are respected by the sets `f`.
pub open spec fn links_closed(configs: Seq<Config>, f: Seq<Set<usize>>) -> bool {
    forall|c: int| 0 <= c < configs.len() ==> #[trigger] settled(configs, f, c)
}

/// Each set of `f` lies within the set of `g` at the same place.
pub open spec fn within(f: Seq<Set<usize>>, g: Seq<Set<usize>>) -> bool {
    forall|c: int| 0 <= c < f.len() ==> (#[trigger] f[c]).subset_of(g[c])
}

/// The sets `f` hold no more than any sets that contain the sets `seed` and
/// respect all links.
pub open spec fn links_least(configs: Seq<Config>, seed: Seq<Set<usize>>, f: Seq<Set<usize>>) -> bool {
    forall|g: Seq<Set<usize>>|
        g.len() == f.len() && within(seed, g) && #[trigger] links_closed(configs, g) ==> within(
            f,
            g,
        )
}

/// The sets `f` are the sets `seed` handed along the links: they contain the
/// seed, respect every link, and no sets that do so are smaller.
pub open spec fn is_propagated(
    configs: Seq<Config>,
    seed: Seq<Set<usize>>,
    f: Seq<Set<usize>>,
) -> bool {
    &&& within(seed, f)
    &&& links_closed(configs, f)
    &&& links_least(configs, seed, f)
}

/// Configuration `b` is configuration `a` but for its follow set and status.
pub open spec fn same_links(a: Config, b: Config) -> bool {
    b == (Config { fws: b.fws, status: b.status, ..a })
}

/// Every configuration whose status is complete has all its links respected.
pub open spec fn complete_settled(configs: Seq<Config>) -> bool {
    forall|c: int|
        0 <= c < configs.len() && (#[trigger] configs[c]).status is Complete ==> settled(
            configs,
            follows(configs),
            c,
        )
}

/// Configuration `y` has a link forward to `x`.
pub open spec fn links_to(configs: Seq<Config>, y: int, x: usize) -> bool {
    configs[y].fplp@.contains(x)
}

/// The `j`-th link forward of configuration `c` answers a link back: what
/// it leads to has a link back to `c`.
pub open spec fn link_backed(configs: Seq<Config>, c: int, j: int) -> bool {
    let d = configs[c].fplp@[j] as int;
    d < configs.len() && configs[d].bplp@.contains(c as usize)
}

/// Every link back of configuration `x`, up to the `upto`-th, has its link
/// forward.
pub open spec fn inverted(configs: Seq<Config>, x: int, upto: int) -> bool {
    forall|k: int|
        0 <= k < upto ==> links_to(configs, (#[trigger] configs[x].bplp@[k]) as int, x as usize)
}

/// Handing a set along one link keeps the sets least.
proof fn lemma_hand_along(
    configs: Seq<Config>,
    seed: Seq<Set<usize>>,
    f: Seq<Set<usize>>,
    c: int,
    k: int,
)
    requires
        f.len() == configs.len(),
        0 <= c < configs.len(),
        0 <= k < configs[c].fplp@.len(),
        configs[c].fplp@[k] < configs.len(),
        links_least(configs, seed, f),
    ensures
        links_least(
            configs,
            seed,
            f.update(configs[c].fplp@[k] as int, f[configs[c].fplp@[k] as int].union(f[c])),
        ),
{
    let t = configs[c].fplp@[k] as int;
    let after = f.update(t, f[t].union(f[c]));
    assert forall|g: Seq<Set<usize>>|
        g.len() == after.len() && within(seed, g) && #[trigger] links_closed(
            configs,
            g,
        ) implies within(after, g) by {
        assert(within(f, g));
        assert(settled(configs, g, c));
        assert(link_ok(configs, g, c, k));
        assert forall|x: int| 0 <= x < after.len() implies (#[trigger] after[x]).subset_of(g[x]) by {
            assert(f[x].subset_of(g[x]));
            assert(f[c].subset_of(g[c]));
        }
    }
}

/// Configuration `d` is configuration `c` with the mark one slot further,
/// and its follow set holds all of the follow set of `c`.
pub open spec fn follows_on(configs: Seq<Config>, c: int, d: int) -> bool {
    &&& configs[d].rule == configs[c].rule
    &&& configs[d].dot == configs[c].dot + 1
    &&& configs[c].fws@.subset_of(configs[d].fws@)
}

/// Some state has in its basis configuration `c` advanced, with a follow set
/// that holds all of the follow set of `c`.
pub open spec fn edge_respected(states: Seq<State>, configs: Seq<Config>, c: int) -> bool {
    exists|t: int, j: int|
        0 <= t < states.len() && 0 <= j < states[t].bp@.len() && follows_on(
            configs,
            c,
            (#[trigger] states[t].bp@[j]) as int,
        )
}

/// Along every shift the follow set is handed on: every configuration of
/// every state whose mark can move has its successor in the basis of a state,
/// and what may follow the configuration may follow the successor.
pub open spec fn shifts_respected(states: Seq<State>, configs: Seq<Config>, rules: Seq<Rule>) -> bool {
    forall|s: int, k: int|
        0 <= s < states.len() && 0 <= k < states[s].cfp@.len() && can_shift(
            configs,
            rules,
            (#[trigger] states[s].cfp@[k]) as int,
        ) ==> edge_respected(states, configs, states[s].cfp@[k] as int)
}

/// Once the links back have been turned round and the follow sets handed
/// along the links, the follow sets are handed on along every shift.
pub proof fn lemma_shifts_respected(
    states: Seq<State>,
    found: Seq<Config>,
    turned: Seq<Config>,
    done: Seq<Config>,
    rules: Seq<Rule>,
)
    requires
        forall|x: int| 0 <= x < states.len() ==> #[trigger] linked(states, found, rules, x),
        forall|s: int, k: int|
            0 <= s < states.len() && 0 <= k < states[s].cfp@.len() ==> (#[trigger] states[s].cfp@[k])
                < found.len(),
        forall|s: int, k: int|
            0 <= s < states.len() && 0 <= k < states[s].bp@.len() ==> (#[trigger] states[s].bp@[k])
                < found.len(),
        turned.len() == found.len(),
        done.len() == found.len(),
        forall|c: int|
            0 <= c < found.len() ==> (#[trigger] turned[c]) == (Config {
                fplp: turned[c].fplp,
                ..found[c]
            }),
        forall|x: int|
            0 <= x < turned.len() ==> #[trigger] inverted(turned, x, turned[x].bplp@.len() as int),
        forall|c: int| 0 <= c < found.len() ==> same_links(turned[c], #[trigger] done[c]),
        links_closed(done, follows(done)),
    ensures
        shifts_respected(states, done, rules),
{
    assert forall|s: int, k: int|
        0 <= s < states.len() && 0 <= k < states[s].cfp@.len() && can_shift(
            done,
            rules,
            (#[trigger] states[s].cfp@[k]) as int,
        ) implies edge_respected(states, done, states[s].cfp@[k] as int) by {
        let c = states[s].cfp@[k] as int;
        assert(same_links(turned[c], done[c]));
        assert(turned[c] == (Config { fplp: turned[c].fplp, ..found[c] }));
        assert(can_shift(found, rules, c));
        assert(linked(states, found, rules, s));
        assert(goto_link(states, found, c));
        let (t, j) = choose|t: int, j: int|
            0 <= t < states.len() && 0 <= j < states[t].bp@.len() && advances(
                found,
                c,
                (#[trigger] states[t].bp@[j]) as int,
            );
        let d = states[t].bp@[j] as int;
        assert(same_links(turned[d], done[d]));
        assert(turned[d] == (Config { fplp: turned[d].fplp, ..found[d] }));
        // the link back from `d` to `c` was turned round
        let w = choose|w: int| 0 <= w < found[d].bplp@.len() && found[d].bplp@[w] == c as usize;
        assert(inverted(turned, d, turned[d].bplp@.len() as int));
        assert(links_to(turned, turned[d].bplp@[w] as int, d as usize));
        let v = choose|v: int| 0 <= v < turned[c].fplp@.len() && turned[c].fplp@[v] == d as usize;
        // and the follow set was handed along it
        assert(settled(done, follows(done), c));
        assert(link_ok(done, follows(done), c, v));
        assert(follows_on(done, c, states[t].bp@[j] as int));
    }
}

/// The respect of shifts does not depend on the actions of the states.
pub proof fn lemma_shifts_kept(a: Seq<State>, b: Seq<State>, configs: Seq<Config>, rules: Seq<Rule>)
    requires
        shifts_respected(a, configs, rules),
        a.len() == b.len(),
        forall|s: int| 0 <= s < a.len() ==> (#[trigger] b[s]).cfp == a[s].cfp && b[s].bp == a[s].bp,
    ensures
        shifts_respected(b, configs, rules),
{
    assert forall|s: int, k: int|
        0 <= s < b.len() && 0 <= k < b[s].cfp@.len() && can_shift(
            configs,
            rules,
            (#[trigger] b[s].cfp@[k]) as int,
        ) implies edge_respected(b, configs, b[s].cfp@[k] as int) by {
        assert(b[s].cfp == a[s].cfp);
        let c = a[s].cfp@[k] as int;
        assert(edge_respected(a, configs, c));
        let (t, j) = choose|t: int, j: int|
            0 <= t < a.len() && 0 <= j < a[t].bp@.len() && follows_on(
                configs,
                c,
                (#[trigger] a[t].bp@[j]) as int,
            );
        assert(b[t].bp == a[t].bp);
        assert(follows_on(configs, c, b[t].bp@[j] as int));
    }
}

impl Lemon {
    /// Turns the links round: wherever a configuration has a link back to
    /// another, that other gets a link forward to it.
    pub fn find_links(&mut self)
        requires
            old(self).built_wf(),
        ensures
            final(self).built_wf(),
            *final(self) == (Lemon { configs: final(self).configs, ..*old(self) }),
            final(self).configs@.len() == old(self).configs@.len(),
            forall|c: int|
                0 <= c < old(self).configs@.len() ==> (#[trigger] final(self).configs@[c]) == (Config {
                    fplp: final(self).configs@[c].fplp,
                    ..old(self).configs@[c]
                }) && old(self).configs@[c].fplp@.is_prefix_of(final(self).configs@[c].fplp@),
            forall|x: int|
                0 <= x < final(self).configs@.len() ==> #[trigger] inverted(
                    final(self).configs@,
                    x,
                    final(self).configs@[x].bplp@.len() as int,
                ),
            forall|c: int, j: int|
                0 <= c < old(self).configs@.len() && old(self).configs@[c].fplp@.len() <= j
                    < final(self).configs@[c].fplp@.len() ==> #[trigger] link_backed(
                    final(self).configs@,
                    c,
                    j,
                ),
    {
        let ghost orig = self.configs@;
        let n = self.configs.len();
        let mut x: usize = 0;
        while x < n
            invariant
                x <= n,
                n == orig.len(),
                orig == old(self).configs@,
                self.built_wf(),
                *self == (Lemon { configs: self.configs, ..*old(self) }),
                self.configs@.len() == n,
                forall|c: int|
                    0 <= c < n ==> (#[trigger] self.configs@[c]) == (Config {
                        fplp: self.configs@[c].fplp,
                        ..orig[c]
                    }) && orig[c].fplp@.is_prefix_of(self.configs@[c].fplp@),
                forall|y: int|
                    0 <= y < x ==> #[trigger] inverted(
                        self.configs@,
                        y,
                        self.configs@[y].bplp@.len() as int,
                    ),
                forall|c: int, j: int|
                    0 <= c < n && orig[c].fplp@.len() <= j < self.configs@[c].fplp@.len() ==> #[trigger] link_backed(
                        self.configs@,
                        c,
                        j,
                    ),
            decreases n - x,
        {
            let m = self.configs[x].bplp.len();
            let mut k: usize = 0;
            while k < m
                invariant
                    k <= m,
                    x < n,
                    n == orig.len(),
                    self.built_wf(),
                    *self == (Lemon { configs: self.configs, ..*old(self) }),
                    self.configs@.len() == n,
                    m == self.configs@[x as int].bplp@.len(),
                    forall|c: int|
                        0 <= c < n ==> (#[trigger] self.configs@[c]) == (Config {
                            fplp: self.configs@[c].fplp,
                            ..orig[c]
                        }) && orig[c].fplp@.is_prefix_of(self.configs@[c].fplp@),
                    forall|y: int|
                        0 <= y < x ==> #[trigger] inverted(
                            self.configs@,
                            y,
                            self.configs@[y].bplp@.len() as int,
                        ),
                    inverted(self.configs@, x as int, k as int),
                    orig == old(self).configs@,
                    forall|c: int, j: int|
                        0 <= c < n && orig[c].fplp@.len() <= j < self.configs@[c].fplp@.len() ==> #[trigger] link_backed(
                            self.configs@,
                            c,
                            j,
                        ),
                decreases m - k,
            {
                proof {
                    lemma_config_ok(
                        self.configs@,
                        self.states@,
                        self.rules@,
                        self.symbols@.len(),
                        x as int,
                    );
                }
                let plp = self.configs[x].bplp[k];
                assert(self.configs@[x as int].bplp@[k as int] < n);
                let ghost before = self.configs@;
                self.link_forward(plp, x);
                proof {
                    let after = self.configs@;
                    assert forall|c: int| 0 <= c < n implies before[c].fplp@.is_prefix_of(
                        (#[trigger] after[c]).fplp@,
                    ) && after[c].bplp == before[c].bplp by {}
                    assert forall|c: int, j: int|
                        0 <= c < n && orig[c].fplp@.len() <= j < after[c].fplp@.len()
                        implies #[trigger] link_backed(after, c, j) by {
                        if j < before[c].fplp@.len() {
                            assert(link_backed(before, c, j));
                            assert(after[c].fplp@[j] == before[c].fplp@[j]);
                            let d = before[c].fplp@[j] as int;
                            assert(after[d].bplp == before[d].bplp);
                        } else {
                            assert(c == plp && j == before[c].fplp@.len());
                            assert(after[c].fplp@[j] == x);
                            assert(after[x as int].bplp@[k as int] == plp);
                        }
                    }
                    assert forall|y: int, j: int|
                        0 <= y < n && 0 <= j < before[y].bplp@.len() && links_to(
                            before,
                            before[y].bplp@[j] as int,
                            y as usize,
                        ) implies links_to(after, #[trigger] after[y].bplp@[j] as int, y as usize) by {
                        let z = before[y].bplp@[j] as int;
                        lemma_config_ok(
                            before,
                            self.states@,
                            self.rules@,
                            self.symbols@.len(),
                            y,
                        );
                        assert(0 <= z < n);
                        let w = choose|w: int|
                            0 <= w < before[z].fplp@.len() && before[z].fplp@[w] == y as usize;
                        assert(before[z].fplp@.is_prefix_of(after[z].fplp@));
                        assert(after[z].fplp@[w] == y as usize);
                    }
                    assert forall|y: int| 0 <= y < x implies #[trigger] inverted(
                        after,
                        y,
                        after[y].bplp@.len() as int,
                    ) by {
                        assert(inverted(before, y, before[y].bplp@.len() as int));
                    }
                    assert(inverted(after, x as int, k + 1)) by {
                        assert forall|j: int| 0 <= j < k + 1 implies links_to(
                            after,
                            (#[trigger] after[x as int].bplp@[j]) as int,
                            x as usize,
                        ) by {
                            if j == k {
                                let l = after[plp as int].fplp@;
                                assert(l[l.len() - 1] == x);
                            }
                        }
                    }
                }
                k += 1;
            }
            x += 1;
        }
    }

    /// Hands the follow set of configuration `c` to all configurations that
    /// inherit it, and says whether any of them grew.
    fn hand_on(&mut self, c: usize, Ghost(seed): Ghost<Seq<Set<usize>>>) -> (grew: bool)
        requires
            old(self).built_wf(),
            c < old(self).configs@.len(),
            seed.len() == old(self).configs@.len(),
            complete_settled(old(self).configs@),
            links_least(old(self).configs@, seed, follows(old(self).configs@)),
        ensures
            final(self).built_wf(),
            *final(self) == (Lemon { configs: final(self).configs, ..*old(self) }),
            final(self).configs@.len() == old(self).configs@.len(),
            forall|x: int|
                0 <= x < old(self).configs@.len() ==> same_links(
                    old(self).configs@[x],
                    #[trigger] final(self).configs@[x],
                ),
            within(follows(old(self).configs@), follows(final(self).configs@)),
            complete_settled(final(self).configs@),
            links_least(final(self).configs@, seed, follows(final(self).configs@)),
            final(self).configs@[c as int].status is Complete,
            grew == (follows(final(self).configs@) != follows(old(self).configs@)),
            !grew ==> forall|x: int|
                0 <= x < old(self).configs@.len() && x != c ==> (#[trigger] final(self).configs@[x]).status
                    == old(self).configs@[x].status,
    {
        let ghost orig = self.configs@;
        let n = self.configs[c].fplp.len();
        let mut grew = false;
        let mut k: usize = 0;
        while k < n
            invariant
                k <= n,
                self.built_wf(),
                *self == (Lemon { configs: self.configs, ..*old(self) }),
                orig == old(self).configs@,
                c < orig.len(),
                seed.len() == orig.len(),
                self.configs@.len() == orig.len(),
                n == orig[c as int].fplp@.len(),
                forall|x: int|
                    0 <= x < orig.len() ==> same_links(orig[x], #[trigger] self.configs@[x]),
                within(follows(orig), follows(self.configs@)),
                complete_settled(self.configs@),
                links_least(self.configs@, seed, follows(self.configs@)),
                self.configs@[c as int].fws@ == orig[c as int].fws@,
                forall|j: int|
                    0 <= j < k ==> #[trigger] link_ok(
                        self.configs@,
                        follows(self.configs@),
                        c as int,
                        j,
                    ),
                grew == (follows(self.configs@) != follows(orig)),
                !grew ==> forall|x: int|
                    0 <= x < orig.len() ==> (#[trigger] self.configs@[x]).status == orig[x].status,
            decreases n - k,
        {
            proof {
                lemma_config_ok(
                    self.configs@,
                    self.states@,
                    self.rules@,
                    self.symbols@.len(),
                    c as int,
                );
                assert(same_links(orig[c as int], self.configs@[c as int]));
            }
            let t = self.configs[c].fplp[k];
            assert(self.configs@[c as int].fplp@[k as int] < orig.len());
            let add = self.configs[c].fws.clone();
            let ghost before = self.configs@;
            let ghost fb = follows(before);
            let g = self.follow_union(t, add);
            if g {
                self.set_status(t, CfgStatus::Incomplete);
            }
            grew = grew || g;
            proof {
                let after = self.configs@;
                let fa = follows(after);
                assert(fa =~= fb.update(t as int, fb[t as int].union(fb[c as int])));
                lemma_hand_along(before, seed, fb, c as int, k as int);
                assert forall|x: int| 0 <= x < orig.len() implies same_links(
                    orig[x],
                    #[trigger] after[x],
                ) by {
                    assert(same_links(orig[x], before[x]));
                }
                assert(within(follows(orig), fa)) by {
                    assert forall|x: int| 0 <= x < orig.len() implies (#[trigger] follows(orig)[x]).subset_of(
                        fa[x],
                    ) by {
                        assert(follows(orig)[x].subset_of(fb[x]));
                    }
                }
                self.lemma_links_same(before, seed, fa);
                assert(complete_settled(after)) by {
                    assert forall|x: int|
                        0 <= x < after.len() && (#[trigger] after[x]).status is Complete implies settled(
                        after,
                        fa,
                        x,
                    ) by {
                        assert(same_links(orig[x], before[x]));
                        if x == t && g {
                        } else {
                            assert(before[x].status is Complete);
                            assert(settled(before, fb, x));
                            assert forall|j: int| 0 <= j < after[x].fplp@.len() implies #[trigger] link_ok(
                                after,
                                fa,
                                x,
                                j,
                            ) by {
                                assert(link_ok(before, fb, x, j));
                                assert(fa[x] == fb[x]);
                                let u = before[x].fplp@[j] as int;
                                lemma_config_ok(
                                    before,
                                    self.states@,
                                    self.rules@,
                                    self.symbols@.len(),
                                    x,
                                );
                                assert(0 <= u < before.len());
                                assert(fb[u].subset_of(fa[u]));
                            }
                        }
                    }
                }
                if t != c {
                    assert(after[c as int] == before[c as int]);
                } else {
                    assert(fa[c as int] =~= fb[c as int]);
                    assert(!g);
                }
                assert forall|j: int| 0 <= j < k + 1 implies #[trigger] link_ok(
                    after,
                    fa,
                    c as int,
                    j,
                ) by {
                    let u = before[c as int].fplp@[j] as int;
                    assert(0 <= u < before.len());
                    assert(fb[u].subset_of(fa[u]));
                    if j < k {
                        assert(link_ok(before, fb, c as int, j));
                    }
                }
                if grew {
                    if fa == follows(orig) {
                        assert(fb =~= follows(orig)) by {
                            assert forall|x: int| 0 <= x < fb.len() implies fb[x] =~= follows(orig)[x] by {
                                assert(follows(orig)[x].subset_of(fb[x]));
                                assert(fb[x].subset_of(fa[x]));
                            }
                        }
                    }
                } else {
                    assert(fa =~= follows(orig)) by {
                        assert(fb == follows(orig));
                        assert(fa[t as int] == fb[t as int]);
                    }
                }
            }
            k += 1;
        }
        let ghost before = self.configs@;
        self.set_status(c, CfgStatus::Complete);
        proof {
            let after = self.configs@;
            assert(follows(after) =~= follows(before));
            self.lemma_links_same(before, seed, follows(after));
            assert forall|x: int| 0 <= x < orig.len() implies same_links(
                orig[x],
                #[trigger] after[x],
            ) by {
                assert(same_links(orig[x], before[x]));
            }
            assert(complete_settled(after)) by {
                assert forall|x: int|
                    0 <= x < after.len() && (#[trigger] after[x]).status is Complete implies settled(
                    after,
                    follows(after),
                    x,
                ) by {
                    if x == c {
                        assert forall|j: int| 0 <= j < after[x].fplp@.len() implies #[trigger] link_ok(
                            after,
                            follows(after),
                            x,
                            j,
                        ) by {
                            assert(link_ok(before, follows(before), c as int, j));
                        }
                    } else {
                        assert(settled(before, follows(before), x));
                        assert forall|j: int| 0 <= j < after[x].fplp@.len() implies #[trigger] link_ok(
                            after,
                            follows(after),
                            x,
                            j,
                        ) by {
                            assert(link_ok(before, follows(before), x, j));
                        }
                    }
                }
            }
        }
        grew
    }

    /// Sets that are least for some configurations are least for
    /// configurations with the same links.
    proof fn lemma_links_same(&self, before: Seq<Config>, seed: Seq<Set<usize>>, f: Seq<Set<usize>>)
        requires
            before.len() == self.configs@.len(),
            forall|x: int|
                0 <= x < before.len() ==> (#[trigger] self.configs@[x]).fplp == before[x].fplp,
            links_least(before, seed, f),
        ensures
            links_least(self.configs@, seed, f),
    {
        let after = self.configs@;
        assert forall|g: Seq<Set<usize>>|
            g.len() == f.len() && within(seed, g) && #[trigger] links_closed(after, g) implies within(
            f,
            g,
        ) by {
            assert(links_closed(before, g)) by {
                assert forall|c: int| 0 <= c < before.len() implies #[trigger] settled(
                    before,
                    g,
                    c,
                ) by {
                    assert(settled(after, g, c));
                    assert(after[c].fplp == before[c].fplp);
                    assert forall|k: int| 0 <= k < before[c].fplp@.len() implies #[trigger] link_ok(
                        before,
                        g,
                        c,
                        k,
                    ) by {
                        assert(link_ok(after, g, c, k));
                    }
                }
            }
        }
    }

    /// The follow sets hold indices of symbols, so their sizes add up to at
    /// most the number of configurations times the number of symbols.
    proof fn lemma_follows_total(&self)
        requires
            self.built_wf(),
        ensures
            total_len(follows(self.configs@)) <= self.configs@.len() * self.symbols@.len(),
            forall|x: int|
                0 <= x < self.configs@.len() ==> (#[trigger] follows(self.configs@)[x]).finite(),
    {
        let f = follows(self.configs@);
        let nsyms = self.symbols@.len();
        assert forall|x: int| 0 <= x < f.len() implies below(#[trigger] f[x], nsyms) by {
            lemma_config_ok(self.configs@, self.states@, self.rules@, nsyms, x);
        }
        lemma_total_len_bound(f, nsyms);
        assert forall|x: int| 0 <= x < self.configs@.len() implies (#[trigger] follows(
            self.configs@,
        )[x]).finite() by {
            assert(below(f[x], nsyms));
            lemma_bounded_finite(f[x], nsyms);
        }
    }

    /// Hands every follow set along the links until nothing changes: each
    /// configuration then has in its follow set all that the configurations
    /// have from which it inherits.
    pub fn find_follow_sets(&mut self)
        requires
            old(self).built_wf(),
        ensures
            final(self).built_wf(),
            *final(self) == (Lemon { configs: final(self).configs, ..*old(self) }),
            final(self).configs@.len() == old(self).configs@.len(),
            forall|x: int|
                0 <= x < old(self).configs@.len() ==> same_links(
                    old(self).configs@[x],
                    #[trigger] final(self).configs@[x],
                ),
            is_propagated(
                final(self).configs@,
                follows(old(self).configs@),
                follows(final(self).configs@),
            ),
    {
        let ghost orig = self.configs@;
        let ghost seed = follows(orig);
        let n = self.configs.len();
        let mut x: usize = 0;
        while x < n
            invariant
                x <= n,
                n == orig.len(),
                orig == old(self).configs@,
                self.built_wf(),
                *self == (Lemon { configs: self.configs, ..*old(self) }),
                self.configs@.len() == n,
                forall|c: int| 0 <= c < n ==> same_links(orig[c], #[trigger] self.configs@[c]),
                forall|c: int| 0 <= c < n ==> (#[trigger] self.configs@[c]).fws == orig[c].fws,
                forall|c: int| 0 <= c < x ==> (#[trigger] self.configs@[c]).status is Incomplete,
            decreases n - x,
        {
            self.set_status(x, CfgStatus::Incomplete);
            x += 1;
        }
        let ghost cap = n * self.symbols@.len();
        proof {
            assert(follows(self.configs@) =~= seed);
            self.lemma_follows_total();
        }
        let mut progress = true;
        while progress
            invariant
                n == orig.len(),
                orig == old(self).configs@,
                seed == follows(orig),
                cap == n * self.symbols@.len(),
                self.built_wf(),
                *self == (Lemon { configs: self.configs, ..*old(self) }),
                self.configs@.len() == n,
                forall|c: int| 0 <= c < n ==> same_links(orig[c], #[trigger] self.configs@[c]),
                within(seed, follows(self.configs@)),
                complete_settled(self.configs@),
                links_least(self.configs@, seed, follows(self.configs@)),
                total_len(follows(self.configs@)) <= cap,
                !progress ==> forall|c: int|
                    0 <= c < n ==> (#[trigger] self.configs@[c]).status is Complete,
            decreases cap - total_len(follows(self.configs@)), if progress { 1int } else { 0int },
        {
            progress = false;
            let ghost start_total = total_len(follows(self.configs@));
            let mut c: usize = 0;
            while c < n
                invariant
                    c <= n,
                    n == orig.len(),
                    orig == old(self).configs@,
                    seed == follows(orig),
                    cap == n * self.symbols@.len(),
                    self.built_wf(),
                    *self == (Lemon { configs: self.configs, ..*old(self) }),
                    self.configs@.len() == n,
                    forall|y: int| 0 <= y < n ==> same_links(orig[y], #[trigger] self.configs@[y]),
                    within(seed, follows(self.configs@)),
                    complete_settled(self.configs@),
                    links_least(self.configs@, seed, follows(self.configs@)),
                    total_len(follows(self.configs@)) <= cap,
                    start_total <= total_len(follows(self.configs@)),
                    progress ==> start_total < total_len(follows(self.configs@)),
                    !progress ==> forall|y: int|
                        0 <= y < c ==> (#[trigger] self.configs@[y]).status is Complete,
                decreases n - c,
            {
                if self.configs[c].status == CfgStatus::Incomplete {
                    let ghost before = self.configs@;
                    let g = self.hand_on(c, Ghost(seed));
                    progress = progress || g;
                    proof {
                        let after = self.configs@;
                        self.lemma_follows_total();
                        lemma_total_len_mono(follows(before), follows(after));
                        assert forall|y: int| 0 <= y < n implies same_links(
                            orig[y],
                            #[trigger] after[y],
                        ) by {
                            assert(same_links(orig[y], before[y]));
                            assert(same_links(before[y], after[y]));
                        }
                        assert(within(seed, follows(after))) by {
                            assert forall|y: int| 0 <= y < seed.len() implies (#[trigger] seed[y]).subset_of(
                                follows(after)[y],
                            ) by {
                                assert(seed[y].subset_of(follows(before)[y]));
                                assert(follows(before)[y].subset_of(follows(after)[y]));
                            }
                        }
                    }
                }
                c += 1;
            }
        }
        proof {
            assert(links_closed(self.configs@, follows(self.configs@))) by {
                assert forall|c: int| 0 <= c < self.configs@.len() implies #[trigger] settled(
                    self.configs@,
                    follows(self.configs@),
                    c,
                ) by {
                    assert(self.configs@[c].status is Complete);
                }
            }
        }
    }
}

} // verus!
