//! Keyed association vectors.
//!
//! Every persisted collection in this layer is a list of entries addressed by
//! a string primary key: configuration rows, cookie rows, archived task rows,
//! the migration meta table, and the table directory itself. This module
//! defines the lookup model (`kidx`, `kget`, `khas`, `kwf`) once, generically,
//! together with the verified find / insert-or-replace / remove operations
//! the stores build on.
use vstd::prelude::*;

verus! {

/// An entry addressed by a string key.
pub trait Keyed: Sized {
    /// The key, as a sequence of characters.
    spec fn key_view(&self) -> Seq<char>;

    /// The key, as the stored string slice.
    fn key_ref(&self) -> (r: &str)
        ensures
            r@ == self.key_view(),
    ;
}

/// Index of the first entry whose key reads `k`, or -1 if no entry does.
pub open spec fn kidx<T: Keyed>(o: Seq<T>, k: Seq<char>) -> int
    decreases o.len(),
{
    if o.len() == 0 {
        -1
    } else if o[0].key_view() == k {
        0
    } else {
        let r = kidx(o.drop_first(), k);
        if r < 0 {
            -1
        } else {
            r + 1
        }
    }
}

/// Whether some entry is stored under key `k`.
pub open spec fn khas<T: Keyed>(o: Seq<T>, k: Seq<char>) -> bool {
    kidx(o, k) >= 0
}

/// The entry stored under key `k`, if any (first entry wins).
pub open spec fn kget<T: Keyed>(o: Seq<T>, k: Seq<char>) -> Option<T> {
    let i = kidx(o, k);
    if i >= 0 {
        Some(o[i])
    } else {
        None
    }
}

/// Well-formed association list: keys are pairwise distinct.
pub open spec fn kwf<T: Keyed>(o: Seq<T>) -> bool {
    forall|i: int, j: int| 0 <= i < j < o.len() ==> o[i].key_view() != o[j].key_view()
}

/// `kidx` finds the first matching entry and nothing before it.
pub proof fn lemma_kidx<T: Keyed>(o: Seq<T>, k: Seq<char>)
    ensures
        kidx(o, k) == -1 || 0 <= kidx(o, k) < o.len(),
        kidx(o, k) >= 0 ==> o[kidx(o, k)].key_view() == k,
        forall|i: int| 0 <= i < o.len() && o[i].key_view() == k ==> 0 <= kidx(o, k) <= i,
        kidx(o, k) == -1 ==> forall|i: int| 0 <= i < o.len() ==> o[i].key_view() != k,
    decreases o.len(),
{
    if o.len() > 0 && o[0].key_view() != k {
        lemma_kidx(o.drop_first(), k);
        assert forall|i: int| 1 <= i < o.len() implies o.drop_first()[i - 1] == o[i] by {}
    }
}

/// `kidx` depends only on the key views, not on the rest of the entries.
pub proof fn lemma_kidx_same_keys<T: Keyed>(a: Seq<T>, b: Seq<T>, k: Seq<char>)
    requires
        a.len() == b.len(),
        forall|i: int| 0 <= i < a.len() ==> a[i].key_view() == b[i].key_view(),
    ensures
        kidx(a, k) == kidx(b, k),
    decreases a.len(),
{
    if a.len() > 0 {
        assert(a[0].key_view() == b[0].key_view());
        if a[0].key_view() != k {
            assert forall|i: int|
                0 <= i < a.len() - 1 implies a.drop_first()[i].key_view()
                == b.drop_first()[i].key_view() by {
                assert(a.drop_first()[i] == a[i + 1]);
                assert(b.drop_first()[i] == b[i + 1]);
            }
            lemma_kidx_same_keys(a.drop_first(), b.drop_first(), k);
        }
    }
}

/// Appending an entry does not disturb lookups of keys already present, and
/// makes the appended key found at the end if it was absent.
pub proof fn lemma_kidx_push<T: Keyed>(o: Seq<T>, e: T, k: Seq<char>)
    ensures
        kidx(o, k) >= 0 ==> kidx(o.push(e), k) == kidx(o, k),
        kidx(o, k) == -1 && e.key_view() == k ==> kidx(o.push(e), k) == o.len(),
        kidx(o, k) == -1 && e.key_view() != k ==> kidx(o.push(e), k) == -1,
    decreases o.len(),
{
    if o.len() == 0 {
        assert(o.push(e)[0] == e);
        if e.key_view() != k {
            assert(o.push(e).drop_first() =~= Seq::<T>::empty());
            assert(kidx(o.push(e).drop_first(), k) == -1);
            assert(kidx(o.push(e), k) == -1);
        }
    } else {
        assert(o.push(e)[0] == o[0]);
        if o[0].key_view() != k {
            assert(o.push(e).drop_first() =~= o.drop_first().push(e));
            lemma_kidx_push(o.drop_first(), e, k);
            let m = kidx(o.drop_first(), k);
            assert(kidx(o, k) == if m >= 0 {
                m + 1
            } else {
                -1
            });
            let m2 = kidx(o.drop_first().push(e), k);
            assert(kidx(o.push(e), k) == if m2 >= 0 {
                m2 + 1
            } else {
                -1
            });
        }
    }
}

/// Removing the (unique) entry of key `k` from a well-formed list does not
/// disturb lookups of other keys.
pub proof fn lemma_kidx_remove<T: Keyed>(o: Seq<T>, k: Seq<char>, k2: Seq<char>)
    requires
        kwf(o),
        kidx(o, k) >= 0,
        k2 != k,
    ensures
        kget(o.remove(kidx(o, k)), k2) == kget(o, k2),
        kwf(o.remove(kidx(o, k))),
    decreases o.len(),
{
    lemma_kidx(o, k);
    let i = kidx(o, k);
    let r = o.remove(i);
    assert forall|m: int, n: int| 0 <= m < n < r.len() implies r[m].key_view()
        != r[n].key_view() by {
        assert(r[m] == if m < i {
            o[m]
        } else {
            o[m + 1]
        });
        assert(r[n] == if n < i {
            o[n]
        } else {
            o[n + 1]
        });
    }
    if i == 0 {
        assert(r =~= o.drop_first());
        assert(o[0].key_view() == k);
        assert(o[0].key_view() != k2);
        let m = kidx(o.drop_first(), k2);
        assert(kidx(o, k2) == if m >= 0 {
            m + 1
        } else {
            -1
        });
        if m >= 0 {
            lemma_kidx(o.drop_first(), k2);
            assert(o.drop_first()[m] == o[m + 1]);
            assert(kget(o, k2) == Some(o[m + 1]));
            assert(kget(r, k2) == Some(o.drop_first()[m]));
        }
    } else {
        assert(o[0].key_view() != k);
        if o[0].key_view() == k2 {
            assert(r[0] == o[0]);
            assert(kidx(r, k2) == 0);
            assert(kidx(o, k2) == 0);
        } else {
            assert(r[0] == o[0]);
            assert(r.drop_first() =~= o.drop_first().remove(i - 1));
            assert forall|m: int, n: int|
                0 <= m < n < o.drop_first().len() implies o.drop_first()[m].key_view()
                != o.drop_first()[n].key_view() by {
                assert(o.drop_first()[m] == o[m + 1]);
                assert(o.drop_first()[n] == o[n + 1]);
            }
            assert(kidx(o.drop_first(), k) == i - 1);
            lemma_kidx_remove(o.drop_first(), k, k2);
            let md = kidx(o.drop_first(), k2);
            assert(kidx(o, k2) == if md >= 0 {
                md + 1
            } else {
                -1
            });
            if md >= 0 {
                lemma_kidx(o.drop_first(), k2);
                assert(o.drop_first()[md] == o[md + 1]);
            }
            let mr = kidx(r.drop_first(), k2);
            assert(kidx(r, k2) == if mr >= 0 {
                mr + 1
            } else {
                -1
            });
            if mr >= 0 {
                lemma_kidx(r.drop_first(), k2);
                assert(r.drop_first()[mr] == r[mr + 1]);
            }
            assert(kget(o.drop_first().remove(i - 1), k2) == kget(o.drop_first(), k2));
        }
    }
}

/// Changing one entry does not disturb lookups of keys that match neither
/// the entry's old key nor its new key.
pub proof fn lemma_kidx_update<T: Keyed>(a: Seq<T>, b: Seq<T>, i: int, k: Seq<char>)
    requires
        a.len() == b.len(),
        0 <= i < a.len(),
        forall|j: int| 0 <= j < a.len() && j != i ==> a[j] == b[j],
        a[i].key_view() != k,
        b[i].key_view() != k,
    ensures
        kidx(a, k) == kidx(b, k),
        kget(a, k) == kget(b, k),
    decreases a.len(),
{
    if a.len() > 0 {
        if i == 0 {
            assert(a.drop_first() =~= b.drop_first());
        } else {
            assert(a[0] == b[0]);
            if a[0].key_view() != k {
                assert forall|j: int|
                    0 <= j < a.len() - 1 && j != i - 1 implies a.drop_first()[j]
                    == b.drop_first()[j] by {
                    assert(a.drop_first()[j] == a[j + 1]);
                    assert(b.drop_first()[j] == b[j + 1]);
                }
                assert(a.drop_first()[i - 1] == a[i]);
                assert(b.drop_first()[i - 1] == b[i]);
                lemma_kidx_update(a.drop_first(), b.drop_first(), i - 1, k);
            }
        }
        lemma_kidx(a, k);
        lemma_kidx(b, k);
        if kidx(a, k) >= 0 {
            assert(a[kidx(a, k)] == b[kidx(a, k)]);
        }
    }
}

/// Inserting an entry under a fresh key, at any position, does not disturb
/// lookups of other keys.
pub proof fn lemma_kidx_insert<T: Keyed>(o: Seq<T>, i: int, e: T, k2: Seq<char>)
    requires
        0 <= i <= o.len(),
        !khas(o, e.key_view()),
        k2 != e.key_view(),
    ensures
        kget(o.insert(i, e), k2) == kget(o, k2),
        kwf(o) ==> kwf(o.insert(i, e)),
    decreases o.len(),
{
    lemma_kidx(o, e.key_view());
    let s = o.insert(i, e);
    assert forall|j: int| 0 <= j < s.len() implies s[j] == (if j < i {
        o[j]
    } else if j == i {
        e
    } else {
        o[j - 1]
    }) by {}
    if kwf(o) {
        assert forall|m: int, n: int| 0 <= m < n < s.len() implies s[m].key_view()
            != s[n].key_view() by {}
    }
    lemma_kidx(o, k2);
    lemma_kidx(s, k2);
    if kidx(o, k2) >= 0 {
        let m = kidx(o, k2);
        let m2 = if m < i {
            m
        } else {
            m + 1
        };
        assert(s[m2] == o[m]);
        assert(kidx(s, k2) >= 0 && kidx(s, k2) <= m2);
        let w = kidx(s, k2);
        assert(s[w].key_view() == k2);
        assert(w != i);
        let wo = if w < i {
            w
        } else {
            w - 1
        };
        assert(o[wo] == s[w]);
        assert(kidx(o, k2) <= wo);
        assert(kget(s, k2) == Some(s[w]));
        assert(s[w] == o[m]) by {
            if w < i {
                assert(wo == w);
                assert(m <= wo && w <= m2);
            } else {
                assert(m <= wo);
                assert(w <= m2);
            }
            assert(o[wo].key_view() == k2);
            assert(wo == m);
        }
    } else {
        if kidx(s, k2) >= 0 {
            let w = kidx(s, k2);
            assert(s[w].key_view() == k2);
            assert(w != i);
            let wo = if w < i {
                w
            } else {
                w - 1
            };
            assert(o[wo] == s[w]);
        }
    }
}

/// String equality over views.
pub fn str_eq(a: &str, b: &str) -> (r: bool)
    ensures
        r == (a@ == b@),
{
    let sa: String = a.to_owned();
    let sb: String = b.to_owned();
    sa == sb
}

/// Position of the first entry stored under `k`, as `kidx` gives it.
pub fn kfind<T: Keyed>(o: &Vec<T>, k: &str) -> (r: Option<usize>)
    ensures
        match r {
            Some(i) => kidx(o@, k@) == i as int && i < o@.len(),
            None => kidx(o@, k@) == -1,
        },
{
    proof {
        lemma_kidx(o@, k@);
    }
    let mut i: usize = 0;
    while i < o.len()
        invariant
            i <= o@.len(),
            forall|j: int| 0 <= j < i ==> o@[j].key_view() != k@,
        decreases o@.len() - i,
    {
        if str_eq(o[i].key_ref(), k) {
            proof {
                lemma_kidx(o@, k@);
            }
            return Some(i);
        }
        i += 1;
    }
    proof {
        lemma_kidx(o@, k@);
    }
    None
}

/// Insert-or-replace: afterwards `item`'s key reads `item` and every other
/// key reads what it read before.
pub fn kupsert<T: Keyed>(o: &mut Vec<T>, item: T)
    ensures
        kget(final(o)@, item.key_view()) == Some(item),
        forall|k2: Seq<char>|
            k2 != item.key_view() ==> kget(final(o)@, k2) == kget(old(o)@, k2),
        forall|k2: Seq<char>|
            khas(final(o)@, k2) <==> khas(old(o)@, k2) || k2 == item.key_view(),
        kwf(old(o)@) ==> kwf(final(o)@),
        final(o)@.len() == if khas(old(o)@, item.key_view()) {
            old(o)@.len()
        } else {
            old(o)@.len() + 1
        },
        khas(old(o)@, item.key_view()) ==> final(o)@ == old(o)@.update(
            kidx(old(o)@, item.key_view()),
            item,
        ),
        !khas(old(o)@, item.key_view()) ==> final(o)@ == old(o)@.push(item),
{
    let ghost orig = o@;
    let ghost kk = item.key_view();
    let pos = kfind(o, item.key_ref());
    match pos {
        Some(i) => {
            proof {
                lemma_kidx(orig, kk);
            }
            o.remove(i);
            o.insert(i, item);
            proof {
                let now = o@;
                assert(now =~= orig.update(i as int, now[i as int]));
                assert(now[i as int].key_view() == kk);
                assert forall|k2: Seq<char>| true implies kidx(now, k2) == kidx(orig, k2) by {
                    lemma_kidx_same_keys(now, orig, k2);
                }
                assert forall|k2: Seq<char>| k2 != kk implies kget(now, k2) == kget(
                    orig,
                    k2,
                ) by {
                    lemma_kidx(now, k2);
                    if kidx(now, k2) >= 0 {
                        assert(now[kidx(now, k2)].key_view() == k2);
                        assert(kidx(now, k2) != i as int);
                    }
                }
                assert forall|m: int, n: int|
                    kwf(orig) && 0 <= m < n < now.len() implies now[m].key_view()
                    != now[n].key_view() by {}
            }
        },
        None => {
            proof {
                lemma_kidx(orig, kk);
            }
            o.push(item);
            proof {
                let now = o@;
                assert(now =~= orig.push(now.last()));
                assert(now.last().key_view() == kk);
                assert forall|k2: Seq<char>| true implies (if k2 == kk {
                    kidx(now, k2) == orig.len()
                } else {
                    kidx(now, k2) == kidx(orig, k2)
                }) by {
                    lemma_kidx_push(orig, now.last(), k2);
                }
                assert forall|k2: Seq<char>| k2 != kk implies kget(now, k2) == kget(
                    orig,
                    k2,
                ) by {
                    lemma_kidx(orig, k2);
                    lemma_kidx_push(orig, now.last(), k2);
                    if kidx(orig, k2) >= 0 {
                        assert(now[kidx(orig, k2)] == orig[kidx(orig, k2)]);
                    }
                }
                assert forall|m: int, n: int|
                    kwf(orig) && 0 <= m < n < now.len() implies now[m].key_view()
                    != now[n].key_view() by {
                    lemma_kidx(orig, kk);
                    if n == now.len() - 1 {
                        assert(now[n].key_view() == kk);
                        assert(now[m] == orig[m]);
                    }
                }
            }
        },
    }
}

/// Remove the entry of key `k`, if present; other keys are undisturbed.
pub fn kremove<T: Keyed>(o: &mut Vec<T>, k: &str)
    requires
        kwf(old(o)@),
    ensures
        kwf(final(o)@),
        kget(final(o)@, k@) is None,
        forall|k2: Seq<char>| k2 != k@ ==> kget(final(o)@, k2) == kget(old(o)@, k2),
        final(o)@ == if khas(old(o)@, k@) {
            old(o)@.remove(kidx(old(o)@, k@))
        } else {
            old(o)@
        },
{
    let ghost orig = o@;
    match kfind(o, k) {
        Some(i) => {
            o.remove(i);
            proof {
                lemma_kidx(orig, k@);
                assert forall|k2: Seq<char>| k2 != k@ implies kget(o@, k2) == kget(
                    orig,
                    k2,
                ) by {
                    lemma_kidx_remove(orig, k@, k2);
                }
                assert forall|m: int, n: int| 0 <= m < n < o@.len() implies o@[m].key_view()
                    != o@[n].key_view() by {
                    assert(o@[m] == if m < i as int {
                        orig[m]
                    } else {
                        orig[m + 1]
                    });
                    assert(o@[n] == if n < i as int {
                        orig[n]
                    } else {
                        orig[n + 1]
                    });
                }
                assert(kget(o@, k@) is None) by {
                    lemma_kidx(o@, k@);
                    if kidx(o@, k@) >= 0 {
                        let j = kidx(o@, k@);
                        assert(o@[j] == if j < i as int {
                            orig[j]
                        } else {
                            orig[j + 1]
                        });
                    }
                }
            }
        },
        None => {
            proof {
                lemma_kidx(orig, k@);
            }
        },
    }
}

} // verus!
