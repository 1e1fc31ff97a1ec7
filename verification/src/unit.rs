use vstd::prelude::*;
use crate::path::{
    join_components, path_components, spec_components, spec_join, spec_tree_path_for,
    spec_root_segment,
};

verus! {

/// A named node of the unit hierarchy. `parents` holds full dotted paths to
/// the parent nodes (the hierarchy is a DAG, so there may be several), `name`
/// is the unit's own segment under each parent. The key `"flags"` of `meta`
/// is reserved and drives index tagging.
#[derive(Clone, Debug, PartialEq, Eq)]
pub struct Unit {
    pub parents: Vec<String>,
    pub description: String,
    pub name: String,
    pub stewards: Vec<String>,
    pub meta: Vec<(String, String)>,
}

/// The mathematical content of a `Unit`.
pub ghost struct UnitAbs {
    pub parents: Seq<Seq<char>>,
    pub description: Seq<char>,
    pub name: Seq<char>,
    pub stewards: Seq<Seq<char>>,
    pub meta: Seq<(Seq<char>, Seq<char>)>,
}

impl View for Unit {
    type V = UnitAbs;

    open spec fn view(&self) -> UnitAbs {
        UnitAbs {
            parents: self.parents.deep_view(),
            description: self.description@,
            name: self.name@,
            stewards: self.stewards.deep_view(),
            meta: self.meta.deep_view(),
        }
    }
}

/// The value of the first `meta` entry whose key is `"flags"`, or the empty
/// string if there is none.
pub open spec fn spec_flags_of(meta: Seq<(Seq<char>, Seq<char>)>) -> Seq<char>
    decreases meta.len(),
{
    if meta.len() == 0 {
        Seq::empty()
    } else if meta[0].0 == "flags"@ {
        meta[0].1
    } else {
        spec_flags_of(meta.skip(1))
    }
}

/// The canonical tree paths of a unit: one per declared parent, each
/// `[ROOT] ++ components(parent) ++ [name]`; a unit without parents gets the
/// single path `[ROOT]`, extended by `[name]` when the name is non-empty.
pub open spec fn spec_tree_paths(u: UnitAbs) -> Seq<Seq<Seq<char>>> {
    if u.parents.len() == 0 {
        if u.name.len() == 0 {
            seq![seq![spec_root_segment()]]
        } else {
            seq![seq![spec_root_segment(), u.name]]
        }
    } else {
        Seq::new(u.parents.len(), |i: int| spec_tree_path_for(u.parents[i], u.name))
    }
}

/// The dotted display form of a unit's primary tree path: the first tree
/// path without its root segment, joined with `'.'`.
pub open spec fn spec_path_str(u: UnitAbs) -> Seq<char> {
    spec_join(spec_tree_paths(u)[0].skip(1))
}

impl Unit {
    /// The unit's flag string: the reserved `"flags"` entry of `meta`.
    pub fn flags_str(&self) -> (r: String)
        ensures
            r@ == spec_flags_of(self@.meta),
    {
        let key = String::from_str("flags");
        proof {
            reveal_strlit("flags");
        }
        let mut j: usize = 0;
        proof {
            assert(self@.meta.skip(0) =~= self@.meta);
        }
        while j < self.meta.len()
            invariant
                j <= self.meta.len(),
                key@ == "flags"@,
                spec_flags_of(self@.meta) == spec_flags_of(self@.meta.skip(j as int)),
            decreases self.meta.len() - j,
        {
            let ghost rest = self@.meta.skip(j as int);
            proof {
                assert(rest[0] == self@.meta[j as int]);
                assert(rest.skip(1) =~= self@.meta.skip(j as int + 1));
            }
            if self.meta[j].0 == key {
                return self.meta[j].1.clone();
            }
            j = j + 1;
        }
        proof {
            assert(self@.meta.skip(self.meta.len() as int).len() == 0);
        }
        String::new()
    }

    /// The canonical tree paths derived from `parents` and `name`.
    /// There is always at least one path; coinciding paths are not
    /// deduplicated.
    pub fn tree_paths(&self) -> (r: Vec<Vec<String>>)
        ensures
            r.deep_view() == spec_tree_paths(self@),
            r.len() >= 1,
    {
        let mut r: Vec<Vec<String>> = Vec::new();
        let mut i: usize = 0;
        while i < self.parents.len()
            invariant
                i <= self.parents.len(),
                r.deep_view() =~= Seq::new(
                    i as nat,
                    |j: int| spec_tree_path_for(self@.parents[j], self@.name),
                ),
            decreases self.parents.len() - i,
        {
            let ghost r_old = r.deep_view();
            let mut path: Vec<String> = Vec::new();
            path.push(String::from_str("T"));
            let mut comps = path_components(self.parents[i].as_str());
            let ghost comps_dv = comps.deep_view();
            path.append(&mut comps);
            path.push(self.name.clone());
            proof {
                reveal_strlit("T");
                assert(path.deep_view() =~= seq![spec_root_segment()] + comps_dv + seq![
                    self@.name,
                ]);
                assert(path.deep_view() == spec_tree_path_for(self@.parents[i as int], self@.name));
            }
            r.push(path);
            proof {
                assert(r.deep_view() =~= r_old.push(
                    spec_tree_path_for(self@.parents[i as int], self@.name),
                ));
            }
            i = i + 1;
        }
        if r.len() == 0 {
            let mut path: Vec<String> = Vec::new();
            path.push(String::from_str("T"));
            if !self.name.as_str().is_empty() {
                path.push(self.name.clone());
                proof {
                    reveal_strlit("T");
                    assert(self@.name.len() > 0);
                    assert(path.deep_view() =~= seq![spec_root_segment(), self@.name]);
                }
            } else {
                proof {
                    reveal_strlit("T");
                    assert(self.name@.len() == 0);
                    assert(path.deep_view() =~= seq![spec_root_segment()]);
                }
            }
            r.push(path);
            proof {
                assert(self@.parents.len() == 0);
                assert(r.deep_view() =~= seq![path.deep_view()]);
            }
        }
        r
    }

    /// The dotted display form of the primary tree path: empty for a unit
    /// with no parents and no name. Used as a lookup key for reparenting,
    /// not as the authoritative index key.
    pub fn path_str(&self) -> (r: String)
        ensures
            r@ == spec_path_str(self@),
    {
        let paths = self.tree_paths();
        let first = &paths[0];
        let mut segs: Vec<String> = Vec::new();
        let mut j: usize = 1;
        proof {
            assert(paths.deep_view()[0] == spec_tree_paths(self@)[0]);
            assert(first.deep_view() == paths.deep_view()[0]);
            assert(segs.deep_view() =~= first.deep_view().skip(1).take(0));
        }
        while j < first.len()
            invariant
                1 <= j <= first.len(),
                first.deep_view() == spec_tree_paths(self@)[0],
                segs.deep_view() =~= first.deep_view().skip(1).take(j - 1),
            decreases first.len() - j,
        {
            let ghost segs_old = segs.deep_view();
            segs.push(first[j].clone());
            proof {
                assert(segs.deep_view() =~= segs_old.push(first.deep_view()[j as int]));
                assert(first.deep_view().skip(1).take(j as int) =~= segs_old.push(
                    first.deep_view()[j as int],
                ));
            }
            j = j + 1;
        }
        proof {
            assert(segs.deep_view() =~= first.deep_view().skip(1));
        }
        join_components(&segs)
    }

    /// An owned copy of this unit with the same mathematical content.
    pub fn duplicate(&self) -> (r: Unit)
        ensures
            r@ == self@,
    {
        let r = Unit {
            parents: clone_strings(&self.parents),
            description: self.description.clone(),
            name: self.name.clone(),
            stewards: clone_strings(&self.stewards),
            meta: clone_meta(&self.meta),
        };
        r
    }
}

/// An owned copy of a list of strings, preserving the views.
pub fn clone_strings(v: &Vec<String>) -> (r: Vec<String>)
    ensures
        r.deep_view() == v.deep_view(),
{
    let mut r: Vec<String> = Vec::new();
    let mut i: usize = 0;
    while i < v.len()
        invariant
            i <= v.len(),
            r.deep_view() =~= v.deep_view().take(i as int),
        decreases v.len() - i,
    {
        let ghost r_old = r.deep_view();
        r.push(v[i].clone());
        proof {
            assert(r.deep_view() =~= r_old.push(v.deep_view()[i as int]));
        }
        i = i + 1;
    }
    proof {
        assert(v.deep_view().take(v.len() as int) =~= v.deep_view());
    }
    r
}

/// An owned copy of a key/value list, preserving the views.
pub fn clone_meta(v: &Vec<(String, String)>) -> (r: Vec<(String, String)>)
    ensures
        r.deep_view() == v.deep_view(),
{
    let mut r: Vec<(String, String)> = Vec::new();
    let mut i: usize = 0;
    while i < v.len()
        invariant
            i <= v.len(),
            r.deep_view() =~= v.deep_view().take(i as int),
        decreases v.len() - i,
    {
        let ghost r_old = r.deep_view();
        r.push((v[i].0.clone(), v[i].1.clone()));
        proof {
            assert(r.deep_view() =~= r_old.push(v.deep_view()[i as int]));
        }
        i = i + 1;
    }
    proof {
        assert(v.deep_view().take(v.len() as int) =~= v.deep_view());
    }
    r
}

/// Validation hook for ledger operations on units. The design accepts every
/// operation; acyclicity of the parent paths is a named open item.
pub fn validate(_unit: &Unit) -> (r: bool)
    ensures
        r,
{
    true
}

/// A unit with no parents has exactly one tree path: the root segment alone,
/// extended by the name when the name is non-empty.
pub proof fn lemma_tree_paths_no_parents(u: UnitAbs)
    requires
        u.parents.len() == 0,
    ensures
        spec_tree_paths(u).len() == 1,
        u.name.len() == 0 ==> spec_tree_paths(u)[0] == seq![spec_root_segment()],
        u.name.len() > 0 ==> spec_tree_paths(u)[0] == seq![spec_root_segment(), u.name],
{
}

/// A unit with the single parent path `"a.b"` and name `"c"` has exactly the
/// tree path `[ROOT, "a", "b", "c"]`.
pub proof fn lemma_tree_paths_dotted_parent(u: UnitAbs)
    requires
        u.parents.len() == 1,
        u.parents[0] == "a.b"@,
        u.name == "c"@,
    ensures
        spec_tree_paths(u) == seq![seq![spec_root_segment(), "a"@, "b"@, "c"@]],
{
    reveal_strlit("a.b");
    reveal_strlit("a");
    reveal_strlit("b");
    reveal_strlit("c");
    let s = "a.b"@;
    assert(s.len() == 3);
    assert(s[0] == 'a' && s[1] == '.' && s[2] == 'b');
    let s1 = s.skip(1);
    let s2 = s.skip(2);
    let s3 = s.skip(3);
    assert(s1 =~= seq!['.', 'b']);
    assert(s2 =~= seq!['b']);
    assert(s3 =~= Seq::<char>::empty());
    assert(s1[0] == '.' && s2[0] == 'b');
    assert(s1.skip(1) =~= s2);
    assert(s2.skip(1) =~= s3);
    let a = seq!['a'];
    let b = seq!['b'];
    assert(crate::path::spec_split_step(s, Seq::empty(), Seq::empty())
        == crate::path::spec_split_step(s1, Seq::<char>::empty().push('a'), Seq::empty()));
    assert(Seq::<char>::empty().push('a') =~= a);
    assert(crate::path::spec_split_step(s1, a, Seq::empty()) == crate::path::spec_split_step(
        s2,
        Seq::empty(),
        Seq::<Seq<char>>::empty().push(a),
    ));
    assert(crate::path::spec_split_step(s2, Seq::empty(), seq![a])
        == crate::path::spec_split_step(s3, Seq::<char>::empty().push('b'), seq![a]));
    assert(Seq::<char>::empty().push('b') =~= b);
    assert(crate::path::spec_split_step(s3, b, seq![a]) == seq![a].push(b));
    assert(spec_components(s) =~= seq![a, b]);
    assert(a =~= "a"@);
    assert(b =~= "b"@);
    assert(spec_tree_path_for(u.parents[0], u.name) =~= seq![
        spec_root_segment(),
        "a"@,
        "b"@,
        "c"@,
    ]);
    assert(spec_tree_paths(u) =~= seq![spec_tree_path_for(u.parents[0], u.name)]);
}

} // verus!
