//! The conversion orchestrator: selects an exporter by target type.

use vstd::prelude::*;

use crate::error::SchematicError;
use crate::litematica::{export_bounds_ok, lm_doc_repr, lm_from, ToLmSchematic};
use crate::nbt::NbtValue;
use crate::schematic::SchematicData;

verus! {

/// The selector value of the dense-grid region target.
pub const LITEMATICA_TYPE: i64 = 2;

/// Drives one conversion: the target selector picks the exporter, which
/// consumes the intermediate representation and produces the target's
/// document — for the dense-grid target, the document of an exporter
/// correctly prepared from the input. Selectors this crate has no
/// exporter for fail with the typed unsupported-format error; the
/// orchestrator itself transforms nothing.
pub fn convert_schematic(data: &SchematicData, schematic_type: i64, lm_version: i32) -> (r: Result<
    NbtValue,
    SchematicError,
>)
    requires
        schematic_type == LITEMATICA_TYPE ==> export_bounds_ok(
            data.blocks.elements@,
            data.size,
        ),
    ensures
        schematic_type == LITEMATICA_TYPE ==> (r matches Ok(doc) && exists|lm: ToLmSchematic|
            #[trigger] lm_from(lm, *data) && lm_doc_repr(doc, lm, lm_version)),
        schematic_type != LITEMATICA_TYPE ==> r == Err::<NbtValue, SchematicError>(
            SchematicError::UnsupportedTargetFormat,
        ),
{
    if schematic_type == LITEMATICA_TYPE {
        let lm = ToLmSchematic::new(data);
        let doc = lm.lm_schematic(lm_version);
        proof {
            assert(lm_from(lm, *data) && lm_doc_repr(doc, lm, lm_version));
        }
        Ok(doc)
    } else {
        Err(SchematicError::UnsupportedTargetFormat)
    }
}

} // verus!
