//! Deobfuscation layer: a rename table restoring original identifiers after a
//! build-time renaming step, and a usage record of which identifiers were
//! actually referenced.
//!
//! Both tables are kept as association lists resolved by first match, so
//! every query is total: absence of an entry means "pass through unchanged"
//! for renames and "not observed as referenced" for usage. Parsing an
//! external mapping source into these tables is a collaborator's job; a
//! malformed source is reported as [`SymbolMapError::InvalidMappingFormat`]
//! and the build proceeds with an empty map unless the caller aborts.

use vstd::prelude::*;

verus! {

/// Failure loading the external mapping source. The loaded map itself never
/// fails a query.
#[derive(Clone, Copy, PartialEq, Eq, Structural, Debug)]
pub enum SymbolMapError {
    InvalidMappingFormat,
}

/// The first value paired with `key`, if any pair's key matches it.
pub open spec fn lookup_pair(s: Seq<(String, String)>, key: Seq<char>) -> Option<Seq<char>>
    decreases s.len(),
{
    if s.len() == 0 {
        None
    } else if s[0].0@ == key {
        Some(s[0].1@)
    } else {
        lookup_pair(s.drop_first(), key)
    }
}

/// The first rename recorded for member `sig` of class `class`, if any.
pub open spec fn lookup_member(s: Seq<(String, String, String)>, class: Seq<char>, sig: Seq<char>)
    -> Option<Seq<char>>
    decreases s.len(),
{
    if s.len() == 0 {
        None
    } else if s[0].0@ == class && s[0].1@ == sig {
        Some(s[0].2@)
    } else {
        lookup_member(s.drop_first(), class, sig)
    }
}

/// Whether some entry's view equals `name`.
pub open spec fn seq_contains_str(s: Seq<String>, name: Seq<char>) -> bool {
    exists|i: int| 0 <= i < s.len() && s[i]@ == name
}

/// Whether some pair's views equal `(class, sig)`.
pub open spec fn pairs_contain(s: Seq<(String, String)>, class: Seq<char>, sig: Seq<char>) -> bool {
    exists|i: int| 0 <= i < s.len() && s[i].0@ == class && s[i].1@ == sig
}

/// How many pairs are keyed by `class`.
pub open spec fn count_for_class(s: Seq<(String, String)>, class: Seq<char>) -> int
    decreases s.len(),
{
    if s.len() == 0 {
        0
    } else {
        (if s[0].0@ == class {
            1int
        } else {
            0int
        }) + count_for_class(s.drop_first(), class)
    }
}

/// Entries are pairwise distinct as character sequences.
pub open spec fn strs_distinct(s: Seq<String>) -> bool {
    forall|i: int, j: int| 0 <= i < j < s.len() ==> s[i]@ != s[j]@
}

/// Pairs are pairwise distinct as pairs of character sequences.
pub open spec fn pairs_distinct(s: Seq<(String, String)>) -> bool {
    forall|i: int, j: int|
        0 <= i < j < s.len() ==> !(s[i].0@ == s[j].0@ && s[i].1@ == s[j].1@)
}

/// Appending an entry whose key is absent keeps the entries pairwise
/// distinct.
proof fn lemma_push_distinct_class(s: Seq<String>, x: String)
    requires
        strs_distinct(s),
        !seq_contains_str(s, x@),
    ensures
        strs_distinct(s.push(x)),
{
    let t = s.push(x);
    assert forall|i: int, j: int| 0 <= i < j < t.len() implies t[i]@ != t[j]@ by {
        if j < s.len() {
            assert(t[i] == s[i] && t[j] == s[j]);
        } else {
            assert(t[j] == x);
            assert(t[i] == s[i]);
        }
    }
}

/// Appending a pair that is absent keeps the pairs pairwise distinct.
proof fn lemma_push_distinct_pair(s: Seq<(String, String)>, x: (String, String))
    requires
        pairs_distinct(s),
        !pairs_contain(s, x.0@, x.1@),
    ensures
        pairs_distinct(s.push(x)),
{
    let t = s.push(x);
    assert forall|i: int, j: int|
        0 <= i < j < t.len() implies !(t[i].0@ == t[j].0@ && t[i].1@ == t[j].1@) by {
        if j < s.len() {
            assert(t[i] == s[i] && t[j] == s[j]);
        } else {
            assert(t[j] == x);
            assert(t[i] == s[i]);
        }
    }
}

/// Rename table: obfuscated fully-qualified class names to original names,
/// plus, per class, obfuscated member signatures to original member names.
#[derive(Debug, Clone)]
pub struct ProguardMap {
    class_renames: Vec<(String, String)>,
    member_renames: Vec<(String, String, String)>,
}

impl ProguardMap {
    /// The recorded `(obfuscated, original)` class renames, in load order.
    pub closed spec fn spec_class_renames(&self) -> Seq<(String, String)> {
        self.class_renames@
    }

    /// The recorded `(class, obfuscated signature, original name)` member
    /// renames, in load order.
    pub closed spec fn spec_member_renames(&self) -> Seq<(String, String, String)> {
        self.member_renames@
    }

    /// The original name of an obfuscated class: the first mapped value, or
    /// the input unchanged when no entry matches.
    pub open spec fn spec_resolve_class(&self, name: Seq<char>) -> Seq<char> {
        match lookup_pair(self.spec_class_renames(), name) {
            Some(original) => original,
            None => name,
        }
    }

    /// The original name of an obfuscated member signature, scoped per
    /// class: the first mapped value, or the input unchanged.
    pub open spec fn spec_resolve_member(&self, class: Seq<char>, sig: Seq<char>) -> Seq<char> {
        match lookup_member(self.spec_member_renames(), class, sig) {
            Some(original) => original,
            None => sig,
        }
    }

    pub fn new() -> (r: ProguardMap)
        ensures
            r.spec_class_renames() == Seq::<(String, String)>::empty(),
            r.spec_member_renames() == Seq::<(String, String, String)>::empty(),
    {
        ProguardMap { class_renames: Vec::new(), member_renames: Vec::new() }
    }

    /// Records that obfuscated class `obfuscated` was originally named
    /// `original`.
    pub fn add_class_rename(&mut self, obfuscated: String, original: String)
        ensures
            final(self).spec_class_renames() == old(self).spec_class_renames().push(
                (obfuscated, original),
            ),
            final(self).spec_member_renames() == old(self).spec_member_renames(),
    {
        self.class_renames.push((obfuscated, original));
    }

    /// Records that obfuscated member `obfuscated` of class `class` was
    /// originally named `original`.
    pub fn add_member_rename(&mut self, class: String, obfuscated: String, original: String)
        ensures
            final(self).spec_member_renames() == old(self).spec_member_renames().push(
                (class, obfuscated, original),
            ),
            final(self).spec_class_renames() == old(self).spec_class_renames(),
    {
        self.member_renames.push((class, obfuscated, original));
    }

    /// Returns the original name if mapped, else the input unchanged —
    /// absence is not an error.
    pub fn resolve_class(&self, name: &String) -> (r: String)
        ensures
            r@ == self.spec_resolve_class(name@),
    {
        let n = self.class_renames.len();
        let mut i: usize = 0;
        assert(self.class_renames@.skip(0) =~= self.class_renames@);
        while i < n
            invariant
                n == self.class_renames.len(),
                i <= n,
                lookup_pair(self.class_renames@, name@) == lookup_pair(
                    self.class_renames@.skip(i as int),
                    name@,
                ),
            decreases n - i,
        {
            let p = &self.class_renames[i];
            assert(self.class_renames@.skip(i as int)[0] == self.class_renames@[i as int]);
            if p.0 == *name {
                return p.1.clone();
            }
            assert(self.class_renames@.skip(i as int).drop_first() =~= self.class_renames@.skip(
                i as int + 1,
            ));
            i += 1;
        }
        assert(self.class_renames@.skip(n as int) =~= Seq::<(String, String)>::empty());
        name.clone()
    }

    /// Same pass-through policy as `resolve_class`, scoped per class.
    pub fn resolve_member(&self, class: &String, sig: &String) -> (r: String)
        ensures
            r@ == self.spec_resolve_member(class@, sig@),
    {
        let n = self.member_renames.len();
        let mut i: usize = 0;
        assert(self.member_renames@.skip(0) =~= self.member_renames@);
        while i < n
            invariant
                n == self.member_renames.len(),
                i <= n,
                lookup_member(self.member_renames@, class@, sig@) == lookup_member(
                    self.member_renames@.skip(i as int),
                    class@,
                    sig@,
                ),
            decreases n - i,
        {
            let p = &self.member_renames[i];
            assert(self.member_renames@.skip(i as int)[0] == self.member_renames@[i as int]);
            if p.0 == *class && p.1 == *sig {
                return p.2.clone();
            }
            assert(self.member_renames@.skip(i as int).drop_first() =~= self.member_renames@.skip(
                i as int + 1,
            ));
            i += 1;
        }
        assert(self.member_renames@.skip(n as int) =~= Seq::<(String, String, String)>::empty());
        sig.clone()
    }
}

/// Usage record: fully-qualified class names known to be reachable, plus,
/// per class, the method and field signatures observed as referenced.
/// Independent of the rename table — a class may be renamed without being
/// marked used, and vice versa.
#[derive(Debug, Clone)]
pub struct ProguardUsagesMap {
    classes: Vec<String>,
    methods_by_class: Vec<(String, String)>,
    fields_by_class: Vec<(String, String)>,
}

impl ProguardUsagesMap {
    /// The classes recorded as reachable, in record order.
    pub closed spec fn spec_classes(&self) -> Seq<String> {
        self.classes@
    }

    /// The `(class, method signature)` pairs recorded as referenced.
    pub closed spec fn spec_methods(&self) -> Seq<(String, String)> {
        self.methods_by_class@
    }

    /// The `(class, field signature)` pairs recorded as referenced.
    pub closed spec fn spec_fields(&self) -> Seq<(String, String)> {
        self.fields_by_class@
    }

    /// Entries are recorded at most once, so the per-class counts report
    /// distinct signatures.
    pub open spec fn wf(&self) -> bool {
        &&& strs_distinct(self.spec_classes())
        &&& pairs_distinct(self.spec_methods())
        &&& pairs_distinct(self.spec_fields())
    }

    pub fn new() -> (r: ProguardUsagesMap)
        ensures
            r.spec_classes() == Seq::<String>::empty(),
            r.spec_methods() == Seq::<(String, String)>::empty(),
            r.spec_fields() == Seq::<(String, String)>::empty(),
            r.wf(),
    {
        ProguardUsagesMap { classes: Vec::new(), methods_by_class: Vec::new(), fields_by_class: Vec::new() }
    }

    /// Membership query against the reachable-class set; absence reports
    /// `false`.
    pub fn is_class_used(&self, name: &String) -> (r: bool)
        ensures
            r == seq_contains_str(self.spec_classes(), name@),
    {
        let n = self.classes.len();
        let mut i: usize = 0;
        while i < n
            invariant
                n == self.classes.len(),
                i <= n,
                forall|k: int| 0 <= k < i ==> self.classes@[k]@ != name@,
            decreases n - i,
        {
            if self.classes[i] == *name {
                return true;
            }
            i += 1;
        }
        false
    }

    /// Whether `sig` of class `class` was observed as referenced, as a
    /// method or as a field; absence reports `false`.
    pub fn is_member_used(&self, class: &String, sig: &String) -> (r: bool)
        ensures
            r == (pairs_contain(self.spec_methods(), class@, sig@) || pairs_contain(
                self.spec_fields(),
                class@,
                sig@,
            )),
    {
        if Self::pairs_lookup(&self.methods_by_class, class, sig) {
            return true;
        }
        Self::pairs_lookup(&self.fields_by_class, class, sig)
    }

    fn pairs_lookup(pairs: &Vec<(String, String)>, class: &String, sig: &String) -> (r: bool)
        ensures
            r == pairs_contain(pairs@, class@, sig@),
    {
        let n = pairs.len();
        let mut i: usize = 0;
        while i < n
            invariant
                n == pairs.len(),
                i <= n,
                forall|k: int| 0 <= k < i ==> !(pairs@[k].0@ == class@ && pairs@[k].1@ == sig@),
            decreases n - i,
        {
            let p = &pairs[i];
            if p.0 == *class && p.1 == *sig {
                return true;
            }
            i += 1;
        }
        false
    }

    /// Records method signature `sig` of class `class` as referenced and the
    /// class itself as reachable. Idempotent: inserting an already-present
    /// entry is a no-op, not an error.
    pub fn record_usage(&mut self, class: String, sig: String)
        requires
            old(self).wf(),
        ensures
            final(self).wf(),
            final(self).spec_classes() == (if seq_contains_str(old(self).spec_classes(), class@) {
                old(self).spec_classes()
            } else {
                old(self).spec_classes().push(class)
            }),
            final(self).spec_methods() == (if pairs_contain(
                old(self).spec_methods(),
                class@,
                sig@,
            ) {
                old(self).spec_methods()
            } else {
                old(self).spec_methods().push((class, sig))
            }),
            final(self).spec_fields() == old(self).spec_fields(),
    {
        if !self.is_class_used(&class) {
            proof {
                lemma_push_distinct_class(self.classes@, class);
            }
            self.classes.push(class.clone());
        }
        if !Self::pairs_lookup(&self.methods_by_class, &class, &sig) {
            proof {
                lemma_push_distinct_pair(self.methods_by_class@, (class, sig));
            }
            self.methods_by_class.push((class, sig));
        }
    }

    /// Records field signature `sig` of class `class` as referenced and the
    /// class itself as reachable. Idempotent like `record_usage`.
    pub fn record_field_usage(&mut self, class: String, sig: String)
        requires
            old(self).wf(),
        ensures
            final(self).wf(),
            final(self).spec_classes() == (if seq_contains_str(old(self).spec_classes(), class@) {
                old(self).spec_classes()
            } else {
                old(self).spec_classes().push(class)
            }),
            final(self).spec_fields() == (if pairs_contain(
                old(self).spec_fields(),
                class@,
                sig@,
            ) {
                old(self).spec_fields()
            } else {
                old(self).spec_fields().push((class, sig))
            }),
            final(self).spec_methods() == old(self).spec_methods(),
    {
        if !self.is_class_used(&class) {
            proof {
                lemma_push_distinct_class(self.classes@, class);
            }
            self.classes.push(class.clone());
        }
        if !Self::pairs_lookup(&self.fields_by_class, &class, &sig) {
            proof {
                lemma_push_distinct_pair(self.fields_by_class@, (class, sig));
            }
            self.fields_by_class.push((class, sig));
        }
    }

    /// How many distinct method signatures of `class` were recorded as
    /// referenced. Zero is a legitimate value meaning "declared but never
    /// referenced".
    pub fn count_used_methods(&self, class: &String) -> (r: u64)
        ensures
            r == count_for_class(self.spec_methods(), class@),
    {
        Self::pairs_count(&self.methods_by_class, class)
    }

    /// How many distinct field signatures of `class` were recorded as
    /// referenced.
    pub fn count_used_fields(&self, class: &String) -> (r: u64)
        ensures
            r == count_for_class(self.spec_fields(), class@),
    {
        Self::pairs_count(&self.fields_by_class, class)
    }

    fn pairs_count(pairs: &Vec<(String, String)>, class: &String) -> (r: u64)
        ensures
            r == count_for_class(pairs@, class@),
    {
        let n = pairs.len();
        let mut i: usize = 0;
        let mut count: u64 = 0;
        assert(pairs@.skip(0) =~= pairs@);
        while i < n
            invariant
                n == pairs.len(),
                i <= n,
                count <= i,
                count + count_for_class(pairs@.skip(i as int), class@) == count_for_class(
                    pairs@,
                    class@,
                ),
            decreases n - i,
        {
            assert(pairs@.skip(i as int)[0] == pairs@[i as int]);
            assert(pairs@.skip(i as int).drop_first() =~= pairs@.skip(i as int + 1));
            let p = &pairs[i];
            if p.0 == *class {
                count = count + 1;
            }
            i += 1;
        }
        assert(pairs@.skip(n as int) =~= Seq::<(String, String)>::empty());
        count
    }
}

} // verus!
