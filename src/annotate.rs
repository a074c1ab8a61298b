//! Annotating one module's source text.

use vstd::prelude::*;
use vstd::string::StringSliceAdditionalSpecFns;
use crate::extract::{ModuleInfo, entries_view};
use crate::payload::{annotation_json, encode_annotation, payload, payload_of};
use crate::position::{PositionError, at_position, has_line, position_in_string};
use crate::splice::patch;

verus! {

/// The text that annotating a module whose annotation is `info` embeds.
pub open spec fn module_payload(info: ModuleInfo) -> Seq<u8> {
    payload_of(annotation_json(entries_view(info.entries@)))
}

/// The source text `text` of the module that `info` annotates, with the
/// annotation inserted where the module's span begins. Every other byte of
/// the text is kept. It fails exactly when the span names no place in the
/// text, which means the text changed since the graph was made. Annotating a
/// text that was annotated before inserts a second copy: the input must be
/// the module's original source.
pub fn annotate_source(text: &str, info: &ModuleInfo) -> (r: Result<Vec<u8>, PositionError>)
    ensures
        r is Ok <==> exists|o: int|
            at_position(text.spec_bytes(), o, info.span.line as int, info.span.column as int),
        match r {
            Ok(out) => exists|o: int|
                at_position(text.spec_bytes(), o, info.span.line as int, info.span.column as int)
                    && out@ == text.spec_bytes().take(o) + module_payload(*info)
                    + text.spec_bytes().skip(o),
            Err(PositionError::LineOutOfRange) => !has_line(
                text.spec_bytes(),
                info.span.line as int,
            ),
            Err(PositionError::ColumnOutOfRange) => has_line(
                text.spec_bytes(),
                info.span.line as int,
            ),
        },
{
    let pos = (info.span.line, info.span.column);
    let offset = match position_in_string(text, pos) {
        Err(e) => {
            proof {
                let (t, line, column) = (
                    text.spec_bytes(),
                    info.span.line as int,
                    info.span.column as int,
                );
                assert forall|o: int| !at_position(t, o, line, column) by {
                    if at_position(t, o, line, column) {
                        assert(at_position(t, o, pos.0 as int, pos.1 as int));
                    }
                }
            }
            return Err(e);
        },
        Ok(o) => o,
    };
    let json = encode_annotation(&info.entries);
    let embedded = payload(json.as_slice());
    let out = patch(text, offset, embedded.as_slice());
    proof {
        assert(at_position(
            text.spec_bytes(),
            offset as int,
            info.span.line as int,
            info.span.column as int,
        ));
    }
    Ok(out)
}

} // verus!
