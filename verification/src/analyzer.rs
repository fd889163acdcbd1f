//! Package-level operations over fully materialized archive contents.
//!
//! Opening the package file, inflating its entries and decoding the binary
//! manifest are collaborators' work; they hand this facade an
//! [`ApkContents`] value and get listings, statistics and the package tree
//! back.

use crate::dex::{DexFile, DexFileStats};
use crate::names::{lemma_lex_le_refl, lemma_lex_le_total, lemma_lex_le_trans, lex_le, str_lex_le};
use crate::package_tree::{spec_build, spec_initial_root, PackageTree, PackageTreeCreator};
use vstd::prelude::*;

verus! {

/// One archive entry: its path within the package, its stored and
/// compressed sizes, and its inflated bytes.
#[derive(Debug)]
pub struct ArchiveEntry {
    pub path: String,
    pub raw_size: u64,
    pub download_size: u64,
    pub data: Vec<u8>,
}

/// A package's fully materialized contents: whole-file sizes plus the
/// entries the archive reader extracted, in archive order.
#[derive(Debug)]
pub struct ApkContents {
    pub raw_size: u64,
    pub download_size: u64,
    pub entries: Vec<ArchiveEntry>,
}

/// Entries stand in non-decreasing path order.
pub open spec fn entries_sorted(s: Seq<ArchiveEntry>) -> bool {
    forall|i: int, j: int| 0 <= i < j < s.len() ==> lex_le(s[i].path@, s[j].path@)
}

/// A path naming a bytecode file: it ends in `.dex`.
pub open spec fn is_dex_path(s: Seq<char>) -> bool {
    s.len() >= 4 && s[s.len() - 4] == '.' && s[s.len() - 3] == 'd' && s[s.len() - 2] == 'e'
        && s[s.len() - 1] == 'x'
}

/// The entries with bytecode paths from index `i` on, in archive order.
pub open spec fn spec_dex_entries(s: Seq<ArchiveEntry>, i: int) -> Seq<ArchiveEntry>
    decreases s.len() - i,
{
    if i >= s.len() {
        Seq::empty()
    } else if is_dex_path(s[i].path@) {
        seq![s[i]] + spec_dex_entries(s, i + 1)
    } else {
        spec_dex_entries(s, i + 1)
    }
}

/// Index of the first entry whose path equals `name`, or the length when
/// there is none.
pub open spec fn entry_index(s: Seq<ArchiveEntry>, name: Seq<char>) -> int
    decreases s.len(),
{
    if s.len() == 0 {
        0
    } else if s[0].path@ == name {
        0
    } else {
        1 + entry_index(s.drop_first(), name)
    }
}

/// `entry_index` points at the first entry with the given path.
pub proof fn lemma_entry_index(s: Seq<ArchiveEntry>, name: Seq<char>)
    ensures
        0 <= entry_index(s, name) <= s.len(),
        entry_index(s, name) < s.len() ==> s[entry_index(s, name)].path@ == name,
        forall|k: int| 0 <= k < entry_index(s, name) ==> s[k].path@ != name,
    decreases s.len(),
{
    if s.len() != 0 && s[0].path@ != name {
        lemma_entry_index(s.drop_first(), name);
        assert forall|k: int| 0 <= k < entry_index(s, name) implies s[k].path@ != name by {
            if k > 0 {
                assert(s.drop_first()[k - 1] == s[k]);
            }
        }
        if entry_index(s, name) < s.len() {
            assert(s.drop_first()[entry_index(s.drop_first(), name)] == s[entry_index(s, name)]);
        }
    }
}

/// What decoding bytes as text with replacement of invalid sequences
/// yields; the result depends on the bytes alone.
pub uninterp spec fn utf8_lossy_of(bytes: Seq<u8>) -> Seq<char>;

/// Relies on String::from_utf8_lossy: decodes bytes as UTF-8, replacing
/// invalid sequences; the result is a function of the bytes alone.
#[verifier::external_body]
fn decode_utf8_lossy(bytes: &Vec<u8>) -> (r: String)
    ensures
        r@ == utf8_lossy_of(bytes@),
{
    String::from_utf8_lossy(bytes.as_slice()).into_owned()
}

/// Whether `path` ends in `.dex`.
fn is_dex_name(path: &String) -> (r: bool)
    ensures
        r == is_dex_path(path@),
{
    let s = path.as_str();
    let n = s.unicode_len();
    if n < 4 {
        return false;
    }
    s.get_char(n - 4) == '.' && s.get_char(n - 3) == 'd' && s.get_char(n - 2) == 'e' && s.get_char(
        n - 1,
    ) == 'x'
}

/// The thin facade sequencing archive contents into listings, per-file
/// statistics and the aggregated package tree.
#[derive(Debug)]
pub struct ApkAnalyzer {}

impl ApkAnalyzer {
    pub fn new() -> (r: ApkAnalyzer) {
        ApkAnalyzer {  }
    }

    /// Size of the whole package file as stored.
    pub fn apk_file_size(&self, apk: &ApkContents) -> (r: u64)
        ensures
            r == apk.raw_size,
    {
        apk.raw_size
    }

    /// Estimated download size of the whole package file.
    pub fn apk_download_size(&self, apk: &ApkContents) -> (r: u64)
        ensures
            r == apk.download_size,
    {
        apk.download_size
    }

    /// The archive's entries sorted by path: a permutation of the input in
    /// non-decreasing path order.
    pub fn files_list(&self, apk: ApkContents) -> (r: Vec<ArchiveEntry>)
        ensures
            entries_sorted(r@),
            r@.to_multiset() == apk.entries@.to_multiset(),
    {
        let mut src = apk.entries;
        let mut out: Vec<ArchiveEntry> = Vec::new();
        let ghost orig = src@;
        proof {
            out@.to_multiset_ensures();
            src@.to_multiset_ensures();
            assert(out@.to_multiset().add(src@.to_multiset()) =~= orig.to_multiset());
        }
        while src.len() > 0
            invariant
                entries_sorted(out@),
                forall|p: int, q: int|
                    0 <= p < out@.len() && 0 <= q < src@.len() ==> lex_le(
                        out@[p].path@,
                        src@[q].path@,
                    ),
                out@.to_multiset().add(src@.to_multiset()) == orig.to_multiset(),
            decreases src@.len(),
        {
            let n = src.len();
            let mut mi: usize = 0;
            let mut k: usize = 1;
            proof {
                lemma_lex_le_refl(src@[0].path@);
            }
            while k < n
                invariant
                    n == src@.len(),
                    mi < k <= n || (mi == 0 && k <= n),
                    mi < n,
                    forall|t: int| 0 <= t < k ==> lex_le(src@[mi as int].path@, src@[t].path@),
                decreases n - k,
            {
                proof {
                    lemma_lex_le_total(src@[mi as int].path@, src@[k as int].path@);
                }
                if str_lex_le(src[k].path.as_str(), src[mi].path.as_str()) {
                    proof {
                        assert forall|t: int|
                            0 <= t < k + 1 implies lex_le(src@[k as int].path@, src@[t].path@) by {
                            if t < k {
                                lemma_lex_le_trans(
                                    src@[k as int].path@,
                                    src@[mi as int].path@,
                                    src@[t].path@,
                                );
                            } else {
                                lemma_lex_le_refl(src@[k as int].path@);
                            }
                        }
                    }
                    mi = k;
                }
                k += 1;
            }
            let ghost pre_src = src@;
            let ghost pre_out = out@;
            let x = src.remove(mi);
            proof {
                pre_src.to_multiset_ensures();
                pre_out.to_multiset_ensures();
                assert(src@.to_multiset() =~= pre_src.to_multiset().remove(x));
                assert(out@.push(x).to_multiset() =~= pre_out.to_multiset().insert(x));
                assert(pre_out.to_multiset().insert(x).add(pre_src.to_multiset().remove(x))
                    =~= pre_out.to_multiset().add(pre_src.to_multiset()));
                assert forall|p: int, q: int|
                    0 <= p < pre_out.push(x).len() && 0 <= q < src@.len() implies lex_le(
                    pre_out.push(x)[p].path@,
                    src@[q].path@,
                ) by {
                    let old_q = if q < mi {
                        q
                    } else {
                        q + 1
                    };
                    assert(src@[q] == pre_src[old_q]);
                    if p < pre_out.len() {
                        assert(lex_le(pre_out[p].path@, pre_src[old_q].path@));
                    } else {
                        assert(pre_out.push(x)[p] == x);
                        assert(lex_le(pre_src[mi as int].path@, pre_src[old_q].path@));
                    }
                }
                assert(entries_sorted(pre_out.push(x)));
            }
            out.push(x);
        }
        proof {
            src@.to_multiset_ensures();
            vstd::multiset::lemma_multiset_empty_len::<ArchiveEntry>(src@.to_multiset());
            assert(out@.to_multiset().add(src@.to_multiset()) =~= out@.to_multiset());
        }
        out
    }

    /// The decoded text of the first entry whose path equals `name`, or
    /// `None` when the archive holds no such entry.
    pub fn file_cat(&self, apk: &ApkContents, name: &String) -> (r: Option<String>)
        ensures
            ({
                let idx = entry_index(apk.entries@, name@);
                match r {
                    Some(text) => idx < apk.entries@.len() && text@ == utf8_lossy_of(
                        apk.entries@[idx].data@,
                    ),
                    None => idx == apk.entries@.len(),
                }
            }),
    {
        let n = apk.entries.len();
        let mut i: usize = 0;
        while i < n
            invariant
                n == apk.entries@.len(),
                i <= n,
                forall|k: int| 0 <= k < i ==> apk.entries@[k].path@ != name@,
            decreases n - i,
        {
            if apk.entries[i].path == *name {
                proof {
                    lemma_entry_index(apk.entries@, name@);
                }
                return Some(decode_utf8_lossy(&apk.entries[i].data));
            }
            i += 1;
        }
        proof {
            lemma_entry_index(apk.entries@, name@);
        }
        None
    }

    /// The archive's bytecode entries — those whose path ends in `.dex` —
    /// in archive order.
    pub fn dex_list(&self, apk: ApkContents) -> (r: Vec<ArchiveEntry>)
        ensures
            r@ == spec_dex_entries(apk.entries@, 0),
    {
        let ghost orig = apk.entries@;
        let mut src = apk.entries;
        let mut out: Vec<ArchiveEntry> = Vec::new();
        let ghost mut i: int = 0;
        let ghost n = orig.len();
        proof {
            assert(out@ + spec_dex_entries(orig, 0) =~= spec_dex_entries(orig, 0));
            assert(src@ =~= orig.skip(0));
        }
        while src.len() > 0
            invariant
                0 <= i <= n,
                n == orig.len(),
                src@ == orig.skip(i),
                spec_dex_entries(orig, 0) == out@ + spec_dex_entries(orig, i),
            decreases src@.len(),
        {
            proof {
                assert(orig.skip(i).len() == n - i);
                assert(i < n);
                assert(orig.skip(i)[0] == orig[i]);
                assert(orig.skip(i).drop_first() =~= orig.skip(i + 1));
            }
            let e = src.remove(0);
            if is_dex_name(&e.path) {
                proof {
                    assert(out@ + spec_dex_entries(orig, i) =~= (out@.push(orig[i]))
                        + spec_dex_entries(orig, i + 1));
                }
                out.push(e);
            }
            proof {
                i = i + 1;
            }
        }
        proof {
            assert(spec_dex_entries(orig, n as int) =~= Seq::<ArchiveEntry>::empty());
            assert(i == n);
            assert(out@ + spec_dex_entries(orig, i) =~= out@);
        }
        out
    }

    /// Per-file roll-up statistics of the given decoded bytecode files, in
    /// order.
    pub fn dex_references(&self, dexes: &Vec<DexFile>) -> (r: Vec<DexFileStats>)
        ensures
            r@.len() == dexes@.len(),
            forall|i: int| 0 <= i < dexes@.len() ==> r@[i] == DexFileStats::spec_of(dexes@[i]),
    {
        let mut out: Vec<DexFileStats> = Vec::new();
        let n = dexes.len();
        let mut i: usize = 0;
        while i < n
            invariant
                n == dexes@.len(),
                i <= n,
                out@.len() == i,
                forall|k: int| 0 <= k < i ==> out@[k] == DexFileStats::spec_of(dexes@[k]),
            decreases n - i,
        {
            out.push(DexFileStats::create(&dexes[i]));
            i += 1;
        }
        out
    }

    /// Builds the package tree of the given decoded bytecode files without
    /// deobfuscation data: every name passes through unchanged and every
    /// referenced count is zero.
    pub fn dex_packages(&self, dexes: &Vec<DexFile>) -> (r: PackageTree)
        ensures
            exists|c: PackageTreeCreator|
                {
                    &&& c.spec_renames().spec_class_renames() == Seq::<(String, String)>::empty()
                    &&& c.spec_usages().spec_methods() == Seq::<(String, String)>::empty()
                    &&& c.spec_usages().spec_fields() == Seq::<(String, String)>::empty()
                    &&& r.root@ == spec_build(dexes@, c.spec_renames(), c.spec_usages()).0
                },
            dexes@.len() == 0 ==> r.root@ == spec_initial_root(),
    {
        let creator = PackageTreeCreator::new();
        let ghost c = creator;
        let tree = creator.construct_package_tree(dexes);
        proof {
            assert(c.spec_renames().spec_class_renames() == Seq::<(String, String)>::empty()
                && c.spec_usages().spec_methods() == Seq::<(String, String)>::empty()
                && c.spec_usages().spec_fields() == Seq::<(String, String)>::empty() && tree.root@
                == spec_build(dexes@, c.spec_renames(), c.spec_usages()).0);
        }
        tree
    }
}

} // verus!
