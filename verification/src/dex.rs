//! Plain-value model of one decoded bytecode file.
//!
//! The bytecode reader is an external collaborator: it enumerates declared
//! classes, their method and field signatures, and the file's reference
//! tables, and hands them over as the values modelled here.

use crate::counts::{lemma_sat_absorb, sat_add_u64, sat_u64};
use vstd::prelude::*;

verus! {

/// One declared class: its fully-qualified (possibly obfuscated) name and
/// its declared method and field signatures.
#[derive(Debug)]
pub struct DexClass {
    pub name: String,
    pub methods: Vec<String>,
    pub fields: Vec<String>,
}

/// One decoded bytecode file: an identifier (its entry name within the
/// package), its declared classes, and the method and field references its
/// reference tables hold.
#[derive(Debug)]
pub struct DexFile {
    pub id: String,
    pub classes: Vec<DexClass>,
    pub method_refs: Vec<String>,
    pub field_refs: Vec<String>,
}

/// Sum of declared method counts over a run of classes.
pub open spec fn spec_method_total(s: Seq<DexClass>) -> int
    decreases s.len(),
{
    if s.len() == 0 {
        0
    } else {
        s[0].methods@.len() + spec_method_total(s.drop_first())
    }
}

/// Sum of declared field counts over a run of classes.
pub open spec fn spec_field_total(s: Seq<DexClass>) -> int
    decreases s.len(),
{
    if s.len() == 0 {
        0
    } else {
        s[0].fields@.len() + spec_field_total(s.drop_first())
    }
}

/// Per-file roll-up statistics.
#[derive(Clone, Copy, PartialEq, Eq, Structural, Debug)]
pub struct DexFileStats {
    pub class_count: u64,
    pub declared_method_count: u64,
    pub declared_field_count: u64,
    pub referenced_method_count: u64,
    pub referenced_field_count: u64,
}

impl DexFileStats {
    /// The statistics a file must report: its class count, the saturated
    /// sums of declared methods and fields over its classes, and the sizes
    /// of its method and field reference tables.
    pub open spec fn spec_of(dex: DexFile) -> DexFileStats {
        DexFileStats {
            class_count: sat_u64(dex.classes@.len() as int),
            declared_method_count: sat_u64(spec_method_total(dex.classes@)),
            declared_field_count: sat_u64(spec_field_total(dex.classes@)),
            referenced_method_count: sat_u64(dex.method_refs@.len() as int),
            referenced_field_count: sat_u64(dex.field_refs@.len() as int),
        }
    }

    /// Computes the roll-up statistics of one decoded file.
    pub fn create(dex: &DexFile) -> (r: DexFileStats)
        ensures
            r == DexFileStats::spec_of(*dex),
    {
        let mut methods: u64 = 0;
        let mut fields: u64 = 0;
        let n = dex.classes.len();
        let mut i: usize = 0;
        assert(dex.classes@.skip(0) =~= dex.classes@);
        while i < n
            invariant
                n == dex.classes@.len(),
                i <= n,
                spec_method_total(dex.classes@) - spec_method_total(dex.classes@.skip(i as int))
                    >= 0,
                spec_field_total(dex.classes@) - spec_field_total(dex.classes@.skip(i as int))
                    >= 0,
                methods == sat_u64(
                    spec_method_total(dex.classes@) - spec_method_total(
                        dex.classes@.skip(i as int),
                    ),
                ),
                fields == sat_u64(
                    spec_field_total(dex.classes@) - spec_field_total(dex.classes@.skip(i as int)),
                ),
            decreases n - i,
        {
            proof {
                assert(dex.classes@.skip(i as int)[0] == dex.classes@[i as int]);
                assert(dex.classes@.skip(i as int).drop_first() =~= dex.classes@.skip(i as int + 1));
                lemma_sat_absorb(
                    spec_method_total(dex.classes@) - spec_method_total(
                        dex.classes@.skip(i as int),
                    ),
                    dex.classes@[i as int].methods@.len() as int,
                );
                lemma_sat_absorb(
                    spec_field_total(dex.classes@) - spec_field_total(dex.classes@.skip(i as int)),
                    dex.classes@[i as int].fields@.len() as int,
                );
            }
            let c = &dex.classes[i];
            methods = sat_add_u64(methods, c.methods.len() as u64);
            fields = sat_add_u64(fields, c.fields.len() as u64);
            i += 1;
        }
        assert(dex.classes@.skip(n as int) =~= Seq::<DexClass>::empty());
        DexFileStats {
            class_count: dex.classes.len() as u64,
            declared_method_count: methods,
            declared_field_count: fields,
            referenced_method_count: dex.method_refs.len() as u64,
            referenced_field_count: dex.field_refs.len() as u64,
        }
    }
}

} // verus!
