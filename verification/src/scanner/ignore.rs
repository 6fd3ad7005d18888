//! `IgnoreSet`: directory names the scanner never descends into.
//!
//! Matching is exact and case-sensitive. The default set is the Logseq
//! list: `logseq`, `assets`, `draws`, `whiteboards`, `bak`, `.recycle`,
//! `version-files`, `.git`, `.obsidian`, `.trash`, `node_modules`.

use vstd::prelude::*;

use crate::text::str_eq;

verus! {

/// A set of names, held without repetition.
#[derive(Debug)]
pub struct IgnoreSet {
    names: Vec<String>,
}

pub open spec fn names_view(v: Seq<String>) -> Seq<Seq<char>> {
    v.map_values(|s: String| s@)
}

impl View for IgnoreSet {
    type V = Set<Seq<char>>;

    closed spec fn view(&self) -> Set<Seq<char>> {
        names_view(self.names@).to_set()
    }
}

/// The names that `IgnoreSet::default_logseq` holds.
pub const DEFAULT_LOGSEQ_IGNORES: [&'static str; 11] = [
    "logseq",
    "assets",
    "draws",
    "whiteboards",
    "bak",
    ".recycle",
    "version-files",
    ".git",
    ".obsidian",
    ".trash",
    "node_modules",
];

/// The names of the default Logseq ignore list.
pub open spec fn default_ignores() -> Set<Seq<char>> {
    set![
        "logseq"@,
        "assets"@,
        "draws"@,
        "whiteboards"@,
        "bak"@,
        ".recycle"@,
        "version-files"@,
        ".git"@,
        ".obsidian"@,
        ".trash"@,
        "node_modules"@,
    ]
}

impl IgnoreSet {
    /// No name is held twice.
    #[verifier::type_invariant]
    spec fn wf(&self) -> bool {
        forall|i: int, j: int|
            0 <= i < j < self.names@.len() ==> (#[trigger] self.names@[i])@ != (#[trigger] self.names@[j])@
    }

    /// The empty set.
    pub fn empty() -> (r: Self)
        ensures
            r@ == Set::<Seq<char>>::empty(),
    {
        let r = IgnoreSet { names: Vec::new() };
        assert(names_view(r.names@) =~= Seq::<Seq<char>>::empty());
        assert(r@ =~= Set::<Seq<char>>::empty());
        r
    }

    fn insert(&mut self, name: String)
        ensures
            final(self)@ == old(self)@.insert(name@),
    {
        proof {
            use_type_invariant(&*self);
        }
        let ghost old_names = names_view(self.names@);
        if self.is_ignored(name.as_str()) {
            assert(self@ =~= self@.insert(name@));
            return;
        }
        let ghost nv = name@;
        let mut v: Vec<String> = Vec::new();
        std::mem::swap(&mut v, &mut self.names);
        assert(names_view(v@) == old_names);
        v.push(name);
        assert(names_view(v@) =~= old_names.push(nv));
        assert forall|i: int, j: int| 0 <= i < j < v@.len() implies (#[trigger] v@[i])@ != (#[trigger] v@[j])@ by {
            if j == v@.len() - 1 {
                assert(old_names[i] == v@[i]@);
                assert(old_names.to_set().contains(old_names[i]));
            } else {
                assert(old_names[i] == v@[i]@ && old_names[j] == v@[j]@);
            }
        }
        self.names = v;
        proof {
            old_names.lemma_push_to_set_commute(nv);
        }
    }

    /// The hard-coded Logseq ignore list.
    pub fn default_logseq() -> (r: Self)
        ensures
            r@ == default_ignores(),
    {
        let ghost list = DEFAULT_LOGSEQ_IGNORES@.map_values(|n: &str| n@);
        let mut r = IgnoreSet::empty();
        let mut i: usize = 0;
        while i < DEFAULT_LOGSEQ_IGNORES.len()
            invariant
                i <= 11,
                list == DEFAULT_LOGSEQ_IGNORES@.map_values(|n: &str| n@),
                r@ == list.take(i as int).to_set(),
            decreases 11 - i,
        {
            r.insert(DEFAULT_LOGSEQ_IGNORES[i].to_owned());
            proof {
                assert(list.take(i + 1) =~= list.take(i as int).push(list[i as int]));
                list.take(i as int).lemma_push_to_set_commute(list[i as int]);
            }
            i = i + 1;
        }
        assert(list.take(11) =~= list);
        assert(r@ =~= default_ignores()) by {
            assert(list[0] == "logseq"@);
            assert(list[1] == "assets"@);
            assert(list[2] == "draws"@);
            assert(list[3] == "whiteboards"@);
            assert(list[4] == "bak"@);
            assert(list[5] == ".recycle"@);
            assert(list[6] == "version-files"@);
            assert(list[7] == ".git"@);
            assert(list[8] == ".obsidian"@);
            assert(list[9] == ".trash"@);
            assert(list[10] == "node_modules"@);
            assert forall|x: Seq<char>| list.to_set().contains(x) implies default_ignores().contains(x) by {
                let k = choose|k: int| 0 <= k < list.len() && list[k] == x;
                assert(0 <= k < 11);
            }
        }
        r
    }

    /// Add the names of `logseq/config.edn`'s `:hidden` list.
    pub fn extend_from_config_edn(&mut self, hidden: Vec<String>)
        ensures
            final(self)@ == old(self)@.union(names_view(hidden@).to_set()),
    {
        let ghost start = self@;
        let mut i: usize = 0;
        while i < hidden.len()
            invariant
                i <= hidden@.len(),
                self@ == start.union(names_view(hidden@.take(i as int)).to_set()),
            decreases hidden@.len() - i,
        {
            let name = hidden[i].clone();
            self.insert(name);
            proof {
                assert(names_view(hidden@.take(i + 1)) =~= names_view(hidden@.take(i as int)).push(hidden@[i as int]@));
                names_view(hidden@.take(i as int)).lemma_push_to_set_commute(hidden@[i as int]@);
            }
            i = i + 1;
            assert(self@ =~= start.union(names_view(hidden@.take(i as int)).to_set()));
        }
        assert(hidden@.take(hidden@.len() as int) =~= hidden@);
    }

    /// Whether `name` is in the set.
    pub fn is_ignored(&self, name: &str) -> (r: bool)
        ensures
            r == self@.contains(name@),
    {
        let mut i: usize = 0;
        while i < self.names.len()
            invariant
                i <= self.names@.len(),
                forall|j: int| 0 <= j < i ==> (#[trigger] self.names@[j])@ != name@,
            decreases self.names@.len() - i,
        {
            if str_eq(self.names[i].as_str(), name) {
                assert(names_view(self.names@)[i as int] == name@);
                return true;
            }
            i = i + 1;
        }
        assert(!names_view(self.names@).contains(name@)) by {
            if names_view(self.names@).contains(name@) {
                let k = choose|k: int| 0 <= k < self.names@.len() && names_view(self.names@)[k] == name@;
                assert(self.names@[k]@ == name@);
            }
        }
        false
    }
}

impl Clone for IgnoreSet {
    /// A copy holding the same names.
    fn clone(&self) -> (r: Self)
        ensures
            r@ == self@,
    {
        proof {
            use_type_invariant(self);
        }
        let mut names: Vec<String> = Vec::new();
        let mut i: usize = 0;
        while i < self.names.len()
            invariant
                i <= self.names@.len(),
                names@.len() == i,
                forall|k: int| 0 <= k < i ==> (#[trigger] names@[k])@ == self.names@[k]@,
                forall|a: int, b: int| 0 <= a < b < self.names@.len() ==> (#[trigger] self.names@[a])@ != (#[trigger] self.names@[b])@,
            decreases self.names@.len() - i,
        {
            names.push(self.names[i].clone());
            i = i + 1;
        }
        assert(names_view(names@) =~= names_view(self.names@));
        assert forall|a: int, b: int| 0 <= a < b < names@.len() implies (#[trigger] names@[a])@ != (#[trigger] names@[b])@ by {
            assert(names@[a]@ == self.names@[a]@ && names@[b]@ == self.names@[b]@);
        }
        IgnoreSet { names }
    }
}

} // verus!
