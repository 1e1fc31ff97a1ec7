use vstd::prelude::*;

verus! {

/// The root segment under which every tree path is anchored.
pub open spec fn spec_root_segment() -> Seq<char> {
    "T"@
}

/// The tree path derived from one parent path and a unit name:
/// root segment, the parent's segments, then the name.
pub open spec fn spec_tree_path_for(parent: Seq<char>, name: Seq<char>) -> Seq<Seq<char>> {
    seq![spec_root_segment()] + spec_components(parent) + seq![name]
}

/// Splitting a dotted path string into segments, one step at a time.
/// `cur` is the segment being read, `acc` the segments already read;
/// empty segments are dropped, so `"a..b"` and `".a.b."` both yield
/// the same segments as `"a.b"`.
pub open spec fn spec_split_step(s: Seq<char>, cur: Seq<char>, acc: Seq<Seq<char>>) -> Seq<
    Seq<char>,
>
    decreases s.len(),
{
    if s.len() == 0 {
        if cur.len() == 0 {
            acc
        } else {
            acc.push(cur)
        }
    } else if s[0] == '.' {
        if cur.len() == 0 {
            spec_split_step(s.skip(1), Seq::empty(), acc)
        } else {
            spec_split_step(s.skip(1), Seq::empty(), acc.push(cur))
        }
    } else {
        spec_split_step(s.skip(1), cur.push(s[0]), acc)
    }
}

/// The segments of a dotted path string: split on `'.'`, empty segments dropped.
pub open spec fn spec_components(s: Seq<char>) -> Seq<Seq<char>> {
    spec_split_step(s, Seq::empty(), Seq::empty())
}

/// The dotted display form of a segment sequence: segments joined with `'.'`.
pub open spec fn spec_join(parts: Seq<Seq<char>>) -> Seq<char>
    decreases parts.len(),
{
    if parts.len() == 0 {
        Seq::empty()
    } else if parts.len() == 1 {
        parts[0]
    } else {
        parts[0] + seq!['.'] + spec_join(parts.skip(1))
    }
}

/// Splits a dotted path string into its non-empty segments.
pub fn path_components(s: &str) -> (r: Vec<String>)
    ensures
        r.deep_view() == spec_components(s@),
{
    let n = s.unicode_len();
    let mut r: Vec<String> = Vec::new();
    let mut start: usize = 0;
    let mut i: usize = 0;
    proof {
        assert(r.deep_view() =~= Seq::<Seq<char>>::empty());
        assert(s@.skip(0) =~= s@);
        assert(s@.subrange(0, 0) =~= Seq::<char>::empty());
    }
    while i < n
        invariant
            n == s@.len(),
            start <= i <= n,
            spec_components(s@) == spec_split_step(
                s@.skip(i as int),
                s@.subrange(start as int, i as int),
                r.deep_view(),
            ),
        decreases n - i,
    {
        let ghost rest = s@.skip(i as int);
        let ghost cur = s@.subrange(start as int, i as int);
        let c = s.get_char(i);
        proof {
            assert(rest.len() > 0);
            assert(rest[0] == s@[i as int]);
            assert(rest.skip(1) =~= s@.skip(i as int + 1));
        }
        if c == '.' {
            if start < i {
                let ghost r_old = r.deep_view();
                let seg = s.substring_char(start, i);
                r.push(String::from_str(seg));
                proof {
                    assert(r.deep_view() =~= r_old.push(cur));
                    assert(spec_split_step(rest, cur, r_old) == spec_split_step(
                        rest.skip(1),
                        Seq::empty(),
                        r_old.push(cur),
                    ));
                }
            } else {
                proof {
                    assert(cur.len() == 0);
                    assert(spec_split_step(rest, cur, r.deep_view()) == spec_split_step(
                        rest.skip(1),
                        Seq::empty(),
                        r.deep_view(),
                    ));
                }
            }
            start = i + 1;
            proof {
                assert(s@.subrange(start as int, start as int) =~= Seq::<char>::empty());
            }
        } else {
            proof {
                assert(s@.subrange(start as int, i as int + 1) =~= cur.push(s@[i as int]));
                assert(spec_split_step(rest, cur, r.deep_view()) == spec_split_step(
                    rest.skip(1),
                    cur.push(s@[i as int]),
                    r.deep_view(),
                ));
            }
        }
        i = i + 1;
    }
    let ghost cur = s@.subrange(start as int, n as int);
    proof {
        assert(s@.skip(n as int) =~= Seq::<char>::empty());
        assert(s@.skip(n as int).len() == 0);
    }
    if start < n {
        let ghost r_old = r.deep_view();
        let seg = s.substring_char(start, n);
        r.push(String::from_str(seg));
        proof {
            assert(cur.len() > 0);
            assert(r.deep_view() =~= r_old.push(cur));
            assert(spec_split_step(s@.skip(n as int), cur, r_old) == r_old.push(cur));
        }
    } else {
        proof {
            assert(cur.len() == 0);
            assert(spec_split_step(s@.skip(n as int), cur, r.deep_view()) == r.deep_view());
        }
    }
    r
}

/// Joins segments into the dotted display form.
pub fn join_components(parts: &Vec<String>) -> (r: String)
    ensures
        r@ == spec_join(parts.deep_view()),
{
    let mut r = String::new();
    let mut i: usize = 0;
    proof {
        assert(parts.deep_view().take(0) =~= Seq::<Seq<char>>::empty());
    }
    while i < parts.len()
        invariant
            i <= parts.len(),
            r@ == spec_join(parts.deep_view().take(i as int)),
        decreases parts.len() - i,
    {
        if i > 0 {
            r.append(".");
            proof {
                reveal_strlit(".");
                assert("."@ =~= seq!['.']);
                assert(r@ == spec_join_prefix_form(parts.deep_view(), i as int));
            }
        } else {
            proof {
                assert(r@ =~= spec_join_prefix_form(parts.deep_view(), 0));
            }
        }
        r.append(parts[i].as_str());
        proof {
            lemma_join_take_step(parts.deep_view(), i as int);
            assert(parts.deep_view()[i as int] == parts@[i as int]@);
        }
        i = i + 1;
    }
    proof {
        assert(parts.deep_view().take(parts.len() as int) =~= parts.deep_view());
    }
    r
}

/// The joined form of the first `i` segments followed by a separator when
/// more segments follow; used to state the `join_components` loop invariant.
pub open spec fn spec_join_prefix_form(parts: Seq<Seq<char>>, i: int) -> Seq<char> {
    if i == 0 {
        Seq::empty()
    } else {
        spec_join(parts.take(i)) + seq!['.']
    }
}

/// Joining one more segment extends the joined prefix by a separator
/// (except at the front) and the segment itself.
pub proof fn lemma_join_take_step(parts: Seq<Seq<char>>, i: int)
    requires
        0 <= i < parts.len(),
    ensures
        spec_join(parts.take(i + 1)) == spec_join_prefix_form(parts, i) + parts[i],
    decreases i,
{
    if i == 0 {
        assert(parts.take(1) =~= seq![parts[0]]);
        assert(spec_join(parts.take(1)) == parts[0]);
        assert(spec_join_prefix_form(parts, 0) + parts[0] =~= parts[0]);
    } else {
        lemma_join_skip_front(parts.take(i + 1));
        lemma_join_take_step(parts.skip(1), i - 1);
        assert(parts.take(i + 1).skip(1) =~= parts.skip(1).take(i));
        assert(parts.take(i).skip(1) =~= parts.skip(1).take(i - 1));
        if i == 1 {
            assert(parts.take(1) =~= seq![parts[0]]);
            assert(spec_join(parts.take(2)) =~= parts[0] + seq!['.'] + parts[1]);
            assert(spec_join_prefix_form(parts, 1) + parts[1] =~= parts[0] + seq!['.'] + parts[1]);
        } else {
            lemma_join_skip_front(parts.take(i));
            assert(spec_join(parts.take(i + 1)) == parts[0] + seq!['.'] + spec_join(
                parts.skip(1).take(i),
            ));
            assert(spec_join(parts.skip(1).take(i)) == spec_join_prefix_form(parts.skip(1), i - 1)
                + parts.skip(1)[i - 1]);
            assert(spec_join_prefix_form(parts.skip(1), i - 1) == spec_join(
                parts.skip(1).take(i - 1),
            ) + seq!['.']);
            assert(spec_join(parts.take(i)) == parts[0] + seq!['.'] + spec_join(
                parts.skip(1).take(i - 1),
            ));
            assert(parts.skip(1)[i - 1] == parts[i]);
            assert(spec_join(parts.take(i + 1)) =~= spec_join(parts.take(i)) + seq!['.']
                + parts[i]);
        }
    }
}

/// For two or more segments, the join is head, separator, join of the rest.
pub proof fn lemma_join_skip_front(parts: Seq<Seq<char>>)
    requires
        parts.len() >= 2,
    ensures
        spec_join(parts) == parts[0] + seq!['.'] + spec_join(parts.skip(1)),
{
}

} // verus!
