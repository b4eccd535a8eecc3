//! The top-level `Module`: the point where the decoded sections get tied
//! together and checked against each other.
//!
//! Each section decoder only validates its own payload. `parse` decodes the
//! sections this crate understands, in the order they appear, then checks the
//! type indices that cross between them and that the code section declares
//! one body per local function. Whether a start or export function index
//! names a function is not checked here. The table, memory, global, element,
//! data and data-count sections are framed but not decoded, so a module
//! containing them still parses.
use crate::exports::{
    exports_bytes,
    lemma_export_section_round_trip,
    written_exports,
    ExportKind,
    decode_export_section,
    export_section,
    exports_view,
    lemma_export_section_offsets,
    Export,
    SpecExport,
};
use crate::functions::{
    decode_function_section,
    encode_all,
    function_section,
    lemma_function_section_offsets,
    lemma_function_section_round_trip,
};
use crate::imports::{
    imports_bytes,
    lemma_import_section_round_trip,
    writable_import,
    writable_name,
    written_imports,
    decode_import_section,
    import_section,
    imports_view,
    lemma_import_section_offsets,
    ExternKind,
    Import,
    SpecImport,
};
use crate::leb::{encode_unsigned, lemma_unsigned_round_trip, u32_outcome, LebError};
use vstd::arithmetic::power2::{lemma2_to64, pow2};
use crate::sections::{
    holds_sections,
    laid_out_in_order,
    lemma_sections_in_format_order_frame,
    module_header,
    sections_bytes,
    error_at,
    frame,
    custom_bounds,
    custom_frame,
    lemma_frame_well_framed,
    lemma_frame_with_custom_section,
    lemma_index_shift,
    shift_bounds,
    with_custom,
    index_at,
    read_index,
    section_bounds,
    well_framed,
    ParseError,
    ParseErrorKind,
    SectionBounds,
};
use crate::start::{decode_start_section, lemma_start_section_offsets, start_section};
use crate::types::{
    func_type_fits,
    func_types_bytes,
    lemma_type_section_round_trip,
    decode_type_section,
    func_types_view,
    lemma_type_section_offsets,
    type_section,
    FuncType,
    SpecFuncType,
};
use vstd::prelude::*;

verus! {

/// A decoded module: the sections this crate currently understands, checked
/// against each other. Sections it does not decode (table, memory, global,
/// element, code, data, data count) are accepted by the framing pass but do
/// not appear here.
#[derive(Debug, Clone, PartialEq, Eq)]
pub struct Module {
    pub types: Vec<FuncType>,
    pub imports: Vec<Import>,
    /// The type index of each function the module defines itself, in
    /// declaration order. Function indices in `start` and in `exports`
    /// continue on from the imported functions.
    pub function_types: Vec<u32>,
    pub exports: Vec<Export>,
    pub start: Option<u32>,
}

/// A module with every part by its view.
pub struct SpecModule {
    pub types: Seq<SpecFuncType>,
    pub imports: Seq<SpecImport>,
    pub function_types: Seq<u32>,
    pub exports: Seq<SpecExport>,
    pub start: Option<u32>,
}

impl View for Module {
    type V = SpecModule;

    open spec fn view(&self) -> SpecModule {
        SpecModule {
            types: func_types_view(self.types@),
            imports: imports_view(self.imports@),
            function_types: self.function_types@,
            exports: exports_view(self.exports@),
            start: self.start,
        }
    }
}

/// A function import whose type index is at least `type_count`.
pub open spec fn names_missing_type(kind: ExternKind, type_count: nat) -> bool {
    match kind {
        ExternKind::Func(t) => t >= type_count,
        _ => false,
    }
}

impl SpecModule {
    /// Some function import names a type the module does not define.
    pub open spec fn has_bad_import_type(self) -> bool {
        exists|i: int|
            0 <= i < self.imports.len() && names_missing_type(
                (#[trigger] self.imports[i]).kind,
                self.types.len(),
            )
    }

    /// Some local function names a type the module does not define.
    pub open spec fn has_bad_function_type(self) -> bool {
        exists|i: int|
            0 <= i < self.function_types.len() && #[trigger] self.function_types[i]
                >= self.types.len()
    }

    /// Every type index the module holds, in function imports and in local
    /// functions, names a type the type section defines.
    pub open spec fn type_indices_in_range(self) -> bool {
        &&& forall|i: int|
            0 <= i < self.imports.len() ==> !names_missing_type(
                (#[trigger] self.imports[i]).kind,
                self.types.len(),
            )
        &&& forall|i: int|
            0 <= i < self.function_types.len() ==> #[trigger] self.function_types[i]
                < self.types.len()
    }
}

/// What the decoding pass has gathered after some of the sections: the parts
/// of the module so far, where the import, function and code sections start,
/// and how many bodies the code section declares.
pub struct Gathered {
    pub module: SpecModule,
    pub import_base: Option<usize>,
    pub function_base: Option<usize>,
    pub code_base: Option<usize>,
    pub code_count: Option<u32>,
}

/// Nothing gathered yet.
pub open spec fn nothing_gathered() -> Gathered {
    Gathered {
        module: SpecModule {
            types: Seq::empty(),
            imports: Seq::empty(),
            function_types: Seq::empty(),
            exports: Seq::empty(),
            start: None,
        },
        import_base: None,
        function_base: None,
        code_base: None,
        code_count: None,
    }
}

/// What one more section adds to `g`, or why its payload is malformed.
/// Custom sections and sections this crate does not decode add nothing.
pub open spec fn gather_section(bytes: Seq<u8>, g: Gathered, s: SectionBounds) -> Result<
    Gathered,
    ParseError,
> {
    let payload = bytes.subrange(s.start as int, s.end as int);
    let base = s.start as int;
    let m = g.module;
    if s.id == 1 {
        match type_section(payload, base) {
            Ok(types) => Ok(Gathered { module: SpecModule { types, ..m }, ..g }),
            Err(e) => Err(e),
        }
    } else if s.id == 2 {
        match import_section(payload, base) {
            Ok(imports) => Ok(
                Gathered { module: SpecModule { imports, ..m }, import_base: Some(s.start), ..g },
            ),
            Err(e) => Err(e),
        }
    } else if s.id == 3 {
        match function_section(payload, base) {
            Ok(function_types) => Ok(
                Gathered {
                    module: SpecModule { function_types, ..m },
                    function_base: Some(s.start),
                    ..g
                },
            ),
            Err(e) => Err(e),
        }
    } else if s.id == 7 {
        match export_section(payload, base) {
            Ok(exports) => Ok(Gathered { module: SpecModule { exports, ..m }, ..g }),
            Err(e) => Err(e),
        }
    } else if s.id == 8 {
        match start_section(payload, base) {
            Ok(start) => Ok(Gathered { module: SpecModule { start: Some(start), ..m }, ..g }),
            Err(e) => Err(e),
        }
    } else if s.id == 10 {
        match index_at(payload, 0, base) {
            Ok((count, _)) => Ok(
                Gathered { code_base: Some(s.start), code_count: Some(count), ..g },
            ),
            Err(e) => Err(e),
        }
    } else {
        Ok(g)
    }
}

/// The sections `b` gathered onto `g`, in the order they appear; the first
/// malformed payload stops the pass.
pub open spec fn gather_from(bytes: Seq<u8>, g: Gathered, b: Seq<SectionBounds>) -> Result<
    Gathered,
    ParseError,
>
    decreases b.len(),
{
    if b.len() == 0 {
        Ok(g)
    } else {
        match gather_from(bytes, g, b.drop_last()) {
            Ok(h) => gather_section(bytes, h, b.last()),
            Err(e) => Err(e),
        }
    }
}

/// The sections `b`, gathered in the order they appear from nothing.
pub open spec fn gather(bytes: Seq<u8>, b: Seq<SectionBounds>) -> Result<Gathered, ParseError> {
    gather_from(bytes, nothing_gathered(), b)
}

/// An offset that may not be known, as 0 when it is not.
pub open spec fn offset_or_zero(o: Option<usize>) -> int {
    match o {
        Some(offset) => offset as int,
        None => 0,
    }
}

/// The checks between sections, once all of them are gathered: function
/// imports, then local functions, must name defined types, and the code
/// section (when there is none, a count of 0) must declare one body per
/// local function.
pub open spec fn check_references(g: Gathered) -> Result<SpecModule, ParseError> {
    let m = g.module;
    if m.has_bad_import_type() {
        Err(error_at(offset_or_zero(g.import_base), ParseErrorKind::TypeIndexOutOfRange))
    } else if m.has_bad_function_type() {
        Err(error_at(offset_or_zero(g.function_base), ParseErrorKind::TypeIndexOutOfRange))
    } else if (match g.code_count {
        Some(c) => c as int,
        None => 0,
    }) != m.function_types.len() {
        Err(
            error_at(
                offset_or_zero(
                    if g.code_base is Some {
                        g.code_base
                    } else {
                        g.function_base
                    },
                ),
                ParseErrorKind::FunctionCodeMismatch,
            ),
        )
    } else {
        Ok(m)
    }
}

/// The checks between sections accept exactly the modules whose function
/// imports and local functions all name a type index below the number of
/// types, and whose code section declares as many bodies as there are local
/// functions (none when there is no code section); what they accept is the
/// gathered module itself. Imported functions do not shift the type indices
/// of local functions.
pub proof fn lemma_references_accept(g: Gathered)
    ensures
        check_references(g) is Ok <==> {
            &&& forall|i: int|
                0 <= i < g.module.imports.len() ==> ((#[trigger] g.module.imports[i]).kind matches ExternKind::Func(
                    t,
                ) ==> t < g.module.types.len())
            &&& forall|i: int|
                0 <= i < g.module.function_types.len() ==> #[trigger] g.module.function_types[i]
                    < g.module.types.len()
            &&& (match g.code_count {
                Some(c) => c as int,
                None => 0,
            }) == g.module.function_types.len()
        },
        check_references(g) matches Ok(m) ==> m == g.module,
        check_references(g) matches Err(e) ==> e.kind == ParseErrorKind::TypeIndexOutOfRange
            || e.kind == ParseErrorKind::FunctionCodeMismatch,
{
    let m = g.module;
    if m.has_bad_import_type() {
        let i = choose|i: int|
            0 <= i < m.imports.len() && names_missing_type((#[trigger] m.imports[i]).kind, m.types.len());
        assert(m.imports[i].kind matches ExternKind::Func(t) && t >= m.types.len());
    }
    if m.has_bad_function_type() {
        let i = choose|i: int|
            0 <= i < m.function_types.len() && #[trigger] m.function_types[i] >= m.types.len();
        assert(m.function_types[i] >= m.types.len());
    }
}

/// A module whose sections frame and decode parses to what they hold exactly
/// when every function type index, imported or local, is below the number of
/// types and the code section declares one body per local function.
pub proof fn lemma_parse_accepts_consistent_modules(bytes: Seq<u8>, b: Seq<SectionBounds>, g: Gathered)
    requires
        frame(bytes) == Ok::<Seq<SectionBounds>, ParseError>(b),
        gather(bytes, b) == Ok::<Gathered, ParseError>(g),
    ensures
        module_of(bytes) is Ok <==> {
            &&& forall|i: int|
                0 <= i < g.module.imports.len() ==> ((#[trigger] g.module.imports[i]).kind matches ExternKind::Func(
                    t,
                ) ==> t < g.module.types.len())
            &&& forall|i: int|
                0 <= i < g.module.function_types.len() ==> #[trigger] g.module.function_types[i]
                    < g.module.types.len()
            &&& (match g.code_count {
                Some(c) => c as int,
                None => 0,
            }) == g.module.function_types.len()
        },
        module_of(bytes) is Ok ==> module_of(bytes) == Ok::<SpecModule, ParseError>(g.module),
{
    lemma_references_accept(g);
}

/// The module a byte string decodes to, or the error that stops it: framing,
/// then every section in order, then the checks between sections.
pub open spec fn module_of(bytes: Seq<u8>) -> Result<SpecModule, ParseError> {
    match frame(bytes) {
        Err(e) => Err(e),
        Ok(b) => match gather(bytes, b) {
            Err(e) => Err(e),
            Ok(g) => check_references(g),
        },
    }
}

proof fn lemma_gather_error_persists(bytes: Seq<u8>, b: Seq<SectionBounds>, k: int)
    requires
        0 <= k <= b.len(),
        gather(bytes, b.take(k)) is Err,
    ensures
        gather(bytes, b) == gather(bytes, b.take(k)),
    decreases b.len(),
{
    if k == b.len() {
        assert(b.take(k) =~= b);
    } else {
        assert(b.drop_last().take(k) =~= b.take(k));
        lemma_gather_error_persists(bytes, b.drop_last(), k);
    }
}

/// Reads only the leading count of a section that is otherwise not decoded,
/// so the function/code count check does not need a code section decoder.
fn peek_vector_count(bytes: &[u8], base: usize) -> (res: Result<u32, ParseError>)
    requires
        base + bytes@.len() <= usize::MAX,
    ensures
        match index_at(bytes@, 0, base as int) {
            Ok((count, _)) => res == Ok::<u32, ParseError>(count),
            Err(e) => res == Err::<u32, ParseError>(e),
        },
        res matches Err(e) ==> e.offset == base,
{
    let mut pos: usize = 0;
    read_index(bytes, &mut pos, base)
}

spec fn gathered_view(
    types: Seq<FuncType>,
    imports: Seq<Import>,
    function_types: Seq<u32>,
    exports: Seq<Export>,
    start: Option<u32>,
    import_base: Option<usize>,
    function_base: Option<usize>,
    code_base: Option<usize>,
    code_count: Option<u32>,
) -> Gathered {
    Gathered {
        module: SpecModule {
            types: func_types_view(types),
            imports: imports_view(imports),
            function_types,
            exports: exports_view(exports),
            start,
        },
        import_base,
        function_base,
        code_base,
        code_count,
    }
}

/// Parses a complete module: validates the header and section framing,
/// decodes every section this crate understands, and checks the type
/// indices between them.
pub fn parse(bytes: &[u8]) -> (res: Result<Module, ParseError>)
    ensures
        match module_of(bytes@) {
            Ok(m) => res matches Ok(x) && x@ == m,
            Err(e) => res matches Err(e2) && e2 == e,
        },
        res matches Ok(m) ==> m@.type_indices_in_range(),
        res matches Err(e) ==> e.offset <= bytes@.len(),
{
    let bounds = section_bounds(bytes)?;

    let mut types: Vec<FuncType> = Vec::new();
    let mut imports: Vec<Import> = Vec::new();
    let mut function_types: Vec<u32> = Vec::new();
    let mut exports: Vec<Export> = Vec::new();
    let mut start: Option<u32> = None;

    let mut import_section_base: Option<usize> = None;
    let mut function_section_base: Option<usize> = None;
    let mut code_section_base: Option<usize> = None;
    let mut code_function_count: Option<u32> = None;

    proof {
        assert(bounds@.take(0) =~= Seq::<SectionBounds>::empty());
        assert(func_types_view(types@) =~= Seq::<SpecFuncType>::empty());
        assert(imports_view(imports@) =~= Seq::<SpecImport>::empty());
        assert(exports_view(exports@) =~= Seq::<SpecExport>::empty());
    }
    let mut i: usize = 0;
    while i < bounds.len()
        invariant
            i <= bounds@.len(),
            frame(bytes@) == Ok::<Seq<SectionBounds>, ParseError>(bounds@),
            well_framed(bytes@, bounds@),
            gather(bytes@, bounds@.take(i as int)) == Ok::<Gathered, ParseError>(
                gathered_view(
                    types@,
                    imports@,
                    function_types@,
                    exports@,
                    start,
                    import_section_base,
                    function_section_base,
                    code_section_base,
                    code_function_count,
                ),
            ),
            import_section_base matches Some(b) ==> b <= bytes@.len(),
            function_section_base matches Some(b) ==> b <= bytes@.len(),
            code_section_base matches Some(b) ==> b <= bytes@.len(),
        decreases bounds@.len() - i,
    {
        let section = bounds[i];
        proof {
            assert(8 < bounds@[i as int].start <= bounds@[i as int].end <= bytes@.len());
            assert(bounds@.take(i + 1).drop_last() =~= bounds@.take(i as int));
            assert(bounds@.take(i + 1).last() == section);
        }
        let payload = vstd::slice::slice_subrange(bytes, section.start, section.end);
        let base = section.start;
        let ghost g = gathered_view(
            types@,
            imports@,
            function_types@,
            exports@,
            start,
            import_section_base,
            function_section_base,
            code_section_base,
            code_function_count,
        );
        let ghost step = gather_section(bytes@, g, section);
        assert(gather(bytes@, bounds@.take(i + 1)) == step);
        if section.id == 1 {
            match decode_type_section(payload, base) {
                Ok(t) => types = t,
                Err(e) => {
                    proof {
                        lemma_gather_error_persists(bytes@, bounds@, i + 1);
                    }
                    return Err(e);
                },
            }
        } else if section.id == 2 {
            import_section_base = Some(base);
            match decode_import_section(payload, base) {
                Ok(v) => imports = v,
                Err(e) => {
                    proof {
                        lemma_gather_error_persists(bytes@, bounds@, i + 1);
                    }
                    return Err(e);
                },
            }
        } else if section.id == 3 {
            function_section_base = Some(base);
            match decode_function_section(payload, base) {
                Ok(v) => function_types = v,
                Err(e) => {
                    proof {
                        lemma_gather_error_persists(bytes@, bounds@, i + 1);
                    }
                    return Err(e);
                },
            }
        } else if section.id == 7 {
            match decode_export_section(payload, base) {
                Ok(v) => exports = v,
                Err(e) => {
                    proof {
                        lemma_gather_error_persists(bytes@, bounds@, i + 1);
                    }
                    return Err(e);
                },
            }
        } else if section.id == 8 {
            match decode_start_section(payload, base) {
                Ok(v) => start = Some(v),
                Err(e) => {
                    proof {
                        lemma_gather_error_persists(bytes@, bounds@, i + 1);
                    }
                    return Err(e);
                },
            }
        } else if section.id == 10 {
            code_section_base = Some(base);
            match peek_vector_count(payload, base) {
                Ok(v) => code_function_count = Some(v),
                Err(e) => {
                    proof {
                        lemma_gather_error_persists(bytes@, bounds@, i + 1);
                    }
                    return Err(e);
                },
            }
        }
        proof {
            assert(step == Ok::<Gathered, ParseError>(
                gathered_view(
                    types@,
                    imports@,
                    function_types@,
                    exports@,
                    start,
                    import_section_base,
                    function_section_base,
                    code_section_base,
                    code_function_count,
                ),
            ));
        }
        i = i + 1;
    }
    proof {
        assert(bounds@.take(bounds@.len() as int) =~= bounds@);
    }
    let ghost g = gathered_view(
        types@,
        imports@,
        function_types@,
        exports@,
        start,
        import_section_base,
        function_section_base,
        code_section_base,
        code_function_count,
    );

    let mut k: usize = 0;
    #[verifier::loop_isolation(false)]
    while k < imports.len()
        invariant
            k <= imports@.len(),
            g.module.imports == imports_view(imports@),
            g.module.types == func_types_view(types@),
            forall|j: int|
                0 <= j < k ==> !names_missing_type((#[trigger] imports@[j]).kind, types@.len()),
        decreases imports@.len() - k,
    {
        if let ExternKind::Func(type_index) = imports[k].kind {
            if type_index as usize >= types.len() {
                proof {
                    assert(g.module.imports[k as int].kind == imports@[k as int].kind);
                }
                let offset = match import_section_base {
                    Some(b) => b,
                    None => 0,
                };
                return Err(ParseError { offset, kind: ParseErrorKind::TypeIndexOutOfRange });
            }
        }
        k = k + 1;
    }
    proof {
        assert forall|j: int| 0 <= j < g.module.imports.len() implies !names_missing_type(
            (#[trigger] g.module.imports[j]).kind,
            g.module.types.len(),
        ) by {
            assert(g.module.imports[j].kind == imports@[j].kind);
        }
    }

    let mut k: usize = 0;
    #[verifier::loop_isolation(false)]
    while k < function_types.len()
        invariant
            k <= function_types@.len(),
            forall|j: int| 0 <= j < k ==> #[trigger] function_types@[j] < types@.len(),
        decreases function_types@.len() - k,
    {
        if function_types[k] as usize >= types.len() {
            proof {
                assert(g.module.function_types[k as int] == function_types@[k as int]);
            }
            let offset = match function_section_base {
                Some(b) => b,
                None => 0,
            };
            return Err(ParseError { offset, kind: ParseErrorKind::TypeIndexOutOfRange });
        }
        k = k + 1;
    }

    let declared_code_count = match code_function_count {
        Some(c) => c as usize,
        None => 0,
    };
    if declared_code_count != function_types.len() {
        let offset = match code_section_base {
            Some(b) => b,
            None => match function_section_base {
                Some(b) => b,
                None => 0,
            },
        };
        return Err(ParseError { offset, kind: ParseErrorKind::FunctionCodeMismatch });
    }

    Ok(Module { types, imports, function_types, exports, start })
}

/// The bytes of a section's payload.
pub open spec fn payload_of(bytes: Seq<u8>, s: SectionBounds) -> Seq<u8> {
    bytes.subrange(s.start as int, s.end as int)
}

/// The error of a result, if it is one.
pub open spec fn error_of<T>(r: Result<T, ParseError>) -> Option<ParseError> {
    match r {
        Ok(_) => None,
        Err(e) => Some(e),
    }
}

/// The error, if any, that decoding one section's payload gives: by its
/// decoder for the type, import, function, export and start sections, and a
/// malformed leading count for the code section. Other sections decode
/// without error.
pub open spec fn section_error(bytes: Seq<u8>, s: SectionBounds) -> Option<ParseError> {
    let payload = payload_of(bytes, s);
    let base = s.start as int;
    if s.id == 1 {
        error_of(type_section(payload, base))
    } else if s.id == 2 {
        error_of(import_section(payload, base))
    } else if s.id == 3 {
        error_of(function_section(payload, base))
    } else if s.id == 7 {
        error_of(export_section(payload, base))
    } else if s.id == 8 {
        error_of(start_section(payload, base))
    } else if s.id == 10 {
        error_of(index_at(payload, 0, base))
    } else {
        None
    }
}

proof fn lemma_gather_prefix_ok(bytes: Seq<u8>, b: Seq<SectionBounds>, k: int)
    requires
        0 <= k <= b.len(),
        forall|j: int| 0 <= j < k ==> section_error(bytes, #[trigger] b[j]) is None,
    ensures
        gather(bytes, b.take(k)) is Ok,
    decreases k,
{
    if k > 0 {
        lemma_gather_prefix_ok(bytes, b, k - 1);
        assert(b.take(k).drop_last() =~= b.take(k - 1));
        assert(b.take(k).last() == b[k - 1]);
        assert(section_error(bytes, b[k - 1]) is None);
    }
}

/// When the sections before the `k`-th decode and the `k`-th does not, its
/// error is what parsing gives: framing errors come first, then section
/// errors in file order, and only then the checks between sections.
pub proof fn lemma_first_failing_section_decides(bytes: Seq<u8>, b: Seq<SectionBounds>, k: int)
    requires
        frame(bytes) == Ok::<Seq<SectionBounds>, ParseError>(b),
        0 <= k < b.len(),
        section_error(bytes, b[k]) is Some,
        forall|j: int| 0 <= j < k ==> section_error(bytes, #[trigger] b[j]) is None,
    ensures
        module_of(bytes) == Err::<SpecModule, ParseError>(section_error(bytes, b[k]).unwrap()),
{
    lemma_gather_prefix_ok(bytes, b, k);
    assert(b.take(k + 1).drop_last() =~= b.take(k));
    assert(b.take(k + 1).last() == b[k]);
    assert(gather(bytes, b.take(k + 1)) == Err::<Gathered, ParseError>(
        section_error(bytes, b[k]).unwrap(),
    ));
    lemma_gather_error_persists(bytes, b, k + 1);
}

proof fn lemma_gather_fields(bytes: Seq<u8>, b: Seq<SectionBounds>)
    requires
        forall|i: int, j: int|
            0 <= i < j < b.len() && #[trigger] b[i].id != 0 ==> b[i].id != #[trigger] b[j].id,
    ensures
        gather(bytes, b) matches Ok(g) ==> decoded_fields(bytes, b, g.module),
    decreases b.len(),
{
    if b.len() > 0 {
        let rest = b.drop_last();
        let s = b.last();
        assert forall|i: int, j: int|
            0 <= i < j < rest.len() && #[trigger] rest[i].id != 0 implies rest[i].id
            != #[trigger] rest[j].id by {
            assert(rest[i] == b[i] && rest[j] == b[j]);
        }
        lemma_gather_fields(bytes, rest);
        if let Ok(g) = gather(bytes, b) {
            let g0 = gather(bytes, rest).unwrap();
            assert forall|i: int| 0 <= i < rest.len() implies #[trigger] b[i] == rest[i] by {}
            assert(b[b.len() - 1] == s);
            assert forall|i: int| 0 <= i < b.len() - 1 && s.id != 0 implies #[trigger] b[i].id != s.id by {
                if b[i].id != 0 {
                    assert(b[i].id != b[b.len() - 1].id);
                }
            }
            assert(decoded_fields(bytes, rest, g0.module));
        }
    } else {
        assert(b =~= Seq::<SectionBounds>::empty());
    }
}

/// `m` holds what the type, import, function, export and start sections of
/// `b` decode to, and nothing where a section is absent.
pub open spec fn decoded_fields(bytes: Seq<u8>, b: Seq<SectionBounds>, m: SpecModule) -> bool {
    &&& forall|i: int|
        0 <= i < b.len() && #[trigger] b[i].id == 1 ==> type_section(payload_of(bytes, b[i]), b[i].start as int)
            == Ok::<Seq<SpecFuncType>, ParseError>(m.types)
    &&& (forall|i: int| 0 <= i < b.len() ==> #[trigger] b[i].id != 1) ==> m.types == Seq::<
        SpecFuncType,
    >::empty()
    &&& forall|i: int|
        0 <= i < b.len() && #[trigger] b[i].id == 2 ==> import_section(payload_of(bytes, b[i]), b[i].start as int)
            == Ok::<Seq<SpecImport>, ParseError>(m.imports)
    &&& (forall|i: int| 0 <= i < b.len() ==> #[trigger] b[i].id != 2) ==> m.imports == Seq::<
        SpecImport,
    >::empty()
    &&& forall|i: int|
        0 <= i < b.len() && #[trigger] b[i].id == 3 ==> function_section(payload_of(bytes, b[i]), b[i].start as int)
            == Ok::<Seq<u32>, ParseError>(m.function_types)
    &&& (forall|i: int| 0 <= i < b.len() ==> #[trigger] b[i].id != 3) ==> m.function_types == Seq::<
        u32,
    >::empty()
    &&& forall|i: int|
        0 <= i < b.len() && #[trigger] b[i].id == 7 ==> export_section(payload_of(bytes, b[i]), b[i].start as int)
            == Ok::<Seq<SpecExport>, ParseError>(m.exports)
    &&& (forall|i: int| 0 <= i < b.len() ==> #[trigger] b[i].id != 7) ==> m.exports == Seq::<
        SpecExport,
    >::empty()
    &&& forall|i: int|
        0 <= i < b.len() && #[trigger] b[i].id == 8 ==> m.start is Some && start_section(
            payload_of(bytes, b[i]),
            b[i].start as int,
        ) == Ok::<u32, ParseError>(m.start.unwrap())
    &&& (forall|i: int| 0 <= i < b.len() ==> #[trigger] b[i].id != 8) ==> m.start is None
}

/// A module that parses holds, field by field, what the section decoders
/// give for the sections framing found: the types from the type section,
/// the imports, the functions' type indices, the exports and the start
/// index, each empty (or absent) when its section is.
pub proof fn lemma_parse_decodes_each_section(bytes: Seq<u8>, b: Seq<SectionBounds>)
    requires
        bytes.len() <= usize::MAX,
        frame(bytes) == Ok::<Seq<SectionBounds>, ParseError>(b),
    ensures
        module_of(bytes) matches Ok(m) ==> decoded_fields(bytes, b, m),
{
    lemma_frame_well_framed(bytes);
    lemma_gather_fields(bytes, b);
}

/// Two gathering states that agree on everything but where sections start.
pub open spec fn same_but_offsets(g1: Gathered, g2: Gathered) -> bool {
    g1.module == g2.module && g1.code_count == g2.code_count
}

/// Two sections with the same id and payload, each payload addressable.
pub open spec fn same_section(bytes1: Seq<u8>, s1: SectionBounds, bytes2: Seq<u8>, s2: SectionBounds) -> bool {
    &&& s1.id == s2.id
    &&& payload_of(bytes1, s1) == payload_of(bytes2, s2)
    &&& s1.start + payload_of(bytes1, s1).len() <= usize::MAX
    &&& s2.start + payload_of(bytes2, s2).len() <= usize::MAX
}

proof fn lemma_gather_section_related(
    bytes1: Seq<u8>,
    g1: Gathered,
    s1: SectionBounds,
    bytes2: Seq<u8>,
    g2: Gathered,
    s2: SectionBounds,
)
    requires
        same_but_offsets(g1, g2),
        same_section(bytes1, s1, bytes2, s2),
        gather_section(bytes1, g1, s1) is Ok,
    ensures
        gather_section(bytes2, g2, s2) is Ok,
        same_but_offsets(gather_section(bytes1, g1, s1).unwrap(), gather_section(bytes2, g2, s2).unwrap()),
{
    let p = payload_of(bytes1, s1);
    let b1 = s1.start as int;
    let b2 = s2.start as int;
    lemma_type_section_offsets(p, b1);
    lemma_type_section_offsets(p, b2);
    lemma_import_section_offsets(p, b1);
    lemma_import_section_offsets(p, b2);
    lemma_function_section_offsets(p, b1);
    lemma_function_section_offsets(p, b2);
    lemma_export_section_offsets(p, b1);
    lemma_export_section_offsets(p, b2);
    lemma_start_section_offsets(p, b1);
    lemma_start_section_offsets(p, b2);
    if p.len() > 0 {
        lemma_index_shift(p, 0, b1);
        lemma_index_shift(p, 0, b2);
    } else {
        lemma_index_shift(p, 0, b1);
        lemma_index_shift(p, 0, b2);
    }
}

proof fn lemma_gather_from_related(
    bytes1: Seq<u8>,
    g1: Gathered,
    x: Seq<SectionBounds>,
    bytes2: Seq<u8>,
    g2: Gathered,
    y: Seq<SectionBounds>,
)
    requires
        same_but_offsets(g1, g2),
        x.len() == y.len(),
        forall|i: int| 0 <= i < x.len() ==> same_section(bytes1, #[trigger] x[i], bytes2, y[i]),
        gather_from(bytes1, g1, x) is Ok,
    ensures
        gather_from(bytes2, g2, y) is Ok,
        same_but_offsets(gather_from(bytes1, g1, x).unwrap(), gather_from(bytes2, g2, y).unwrap()),
    decreases x.len(),
{
    if x.len() > 0 {
        let n = x.len() - 1;
        assert forall|i: int| 0 <= i < x.drop_last().len() implies same_section(
            bytes1,
            #[trigger] x.drop_last()[i],
            bytes2,
            y.drop_last()[i],
        ) by {
            assert(x.drop_last()[i] == x[i] && y.drop_last()[i] == y[i]);
        }
        lemma_gather_from_related(bytes1, g1, x.drop_last(), bytes2, g2, y.drop_last());
        assert(same_section(bytes1, x[n], bytes2, y[n]));
        lemma_gather_section_related(
            bytes1,
            gather_from(bytes1, g1, x.drop_last()).unwrap(),
            x.last(),
            bytes2,
            gather_from(bytes2, g2, y.drop_last()).unwrap(),
            y.last(),
        );
    }
}

proof fn lemma_gather_from_concat(bytes: Seq<u8>, g: Gathered, x: Seq<SectionBounds>, y: Seq<SectionBounds>)
    ensures
        gather_from(bytes, g, x + y) == match gather_from(bytes, g, x) {
            Ok(h) => gather_from(bytes, h, y),
            Err(e) => Err(e),
        },
    decreases y.len(),
{
    if y.len() == 0 {
        assert(x + y =~= x);
    } else {
        assert((x + y).drop_last() =~= x + y.drop_last());
        assert((x + y).last() == y.last());
        lemma_gather_from_concat(bytes, g, x, y.drop_last());
    }
}

proof fn lemma_gather_custom(bytes: Seq<u8>, g: Gathered, c: SectionBounds)
    requires
        c.id == 0,
    ensures
        gather_from(bytes, g, seq![c]) == Ok::<Gathered, ParseError>(g),
{
    assert(seq![c].drop_last() =~= Seq::<SectionBounds>::empty());
    assert(seq![c].last() == c);
    assert(gather_from(bytes, g, Seq::<SectionBounds>::empty()) == Ok::<Gathered, ParseError>(g));
    assert(gather_section(bytes, g, c) == Ok::<Gathered, ParseError>(g));
}

/// The sections before the insertion point keep their bounds and payloads.
proof fn lemma_sections_before(
    bytes: Seq<u8>,
    b: Seq<SectionBounds>,
    q: int,
    k: int,
    size: Seq<u8>,
    contents: Seq<u8>,
)
    requires
        bytes.len() <= usize::MAX,
        well_framed(bytes, b),
        8 <= q <= bytes.len(),
        (k == -1 && q == 8) || (0 <= k < b.len() && q == b[k].end),
        with_custom(bytes, q, size, contents).len() <= usize::MAX,
    ensures
        forall|i: int|
            0 <= i < b.take(k + 1).len() ==> same_section(
                bytes,
                #[trigger] b.take(k + 1)[i],
                with_custom(bytes, q, size, contents),
                b.take(k + 1)[i],
            ),
{
    let bytes2 = with_custom(bytes, q, size, contents);
    let x = b.take(k + 1);
    assert(bytes2.take(q) =~= bytes.take(q));
    assert forall|i: int| 0 <= i < x.len() implies same_section(bytes, #[trigger] x[i], bytes2, x[i]) by {
        assert(x[i] == b[i]);
        assert(8 < b[i].start <= b[i].end <= bytes.len());
        assert(b[i].end <= q) by {
            if i < k {
                assert(b[i].end < b[k].start);
            }
        }
        assert(payload_of(bytes2, b[i]) =~= payload_of(bytes, b[i])) by {
            assert forall|j: int| 0 <= j < payload_of(bytes, b[i]).len() implies payload_of(bytes2, b[i])[j]
                == payload_of(bytes, b[i])[j] by {
                assert(bytes2[b[i].start + j] == bytes2.take(q)[b[i].start + j]);
                assert(bytes[b[i].start + j] == bytes.take(q)[b[i].start + j]);
            }
        }
    }
}

/// The sections after the insertion point keep their payloads, moved by the
/// custom frame's length.
proof fn lemma_sections_after(
    bytes: Seq<u8>,
    b: Seq<SectionBounds>,
    q: int,
    k: int,
    size: Seq<u8>,
    contents: Seq<u8>,
)
    requires
        bytes.len() <= usize::MAX,
        well_framed(bytes, b),
        8 <= q <= bytes.len(),
        (k == -1 && q == 8) || (0 <= k < b.len() && q == b[k].end),
        with_custom(bytes, q, size, contents).len() <= usize::MAX,
    ensures
        forall|i: int|
            0 <= i < b.skip(k + 1).len() ==> same_section(
                bytes,
                #[trigger] b.skip(k + 1)[i],
                with_custom(bytes, q, size, contents),
                shift_bounds(b.skip(k + 1), custom_frame(size, contents).len() as int)[i],
            ),
{
    let bytes2 = with_custom(bytes, q, size, contents);
    let d = custom_frame(size, contents).len() as int;
    let z = b.skip(k + 1);
    let y = shift_bounds(z, d);
    assert(bytes2.len() == bytes.len() + d);
    assert forall|i: int| 0 <= i < z.len() implies same_section(bytes, #[trigger] z[i], bytes2, y[i]) by {
        assert(z[i] == b[k + 1 + i]);
        assert(8 < b[k + 1 + i].start <= b[k + 1 + i].end <= bytes.len());
        assert(q < b[k + 1 + i].start) by {
            if k >= 0 {
                assert(b[k].end < b[k + 1 + i].start);
            }
        }
        let sz = z[i];
        assert(y[i] == SectionBounds { id: sz.id, start: (sz.start + d) as usize, end: (sz.end + d) as usize });
        assert(payload_of(bytes2, y[i]) =~= payload_of(bytes, sz)) by {
            assert forall|j: int| 0 <= j < payload_of(bytes, sz).len() implies payload_of(bytes2, y[i])[j]
                == payload_of(bytes, sz)[j] by {
                assert(bytes2[sz.start + d + j] == bytes[sz.start + j]);
            }
        }
    }
}

/// A custom section, of any contents and with any encoding of its size that
/// reads as that size, inserted where a section starts or at the end of a
/// module that parses, leaves what parsing gives unchanged.
pub proof fn lemma_custom_sections_change_nothing(
    bytes: Seq<u8>,
    b: Seq<SectionBounds>,
    q: int,
    k: int,
    size: Seq<u8>,
    contents: Seq<u8>,
)
    requires
        bytes.len() <= usize::MAX,
        frame(bytes) == Ok::<Seq<SectionBounds>, ParseError>(b),
        (k == -1 && q == 8) || (0 <= k < b.len() && q == b[k].end),
        with_custom(bytes, q, size, contents).len() <= usize::MAX,
        contents.len() <= u32::MAX,
        u32_outcome(size, 0) == (Ok::<u32, LebError>(contents.len() as u32), size.len() as int),
    ensures
        module_of(bytes) matches Ok(m) ==> module_of(with_custom(bytes, q, size, contents)) == Ok::<
            SpecModule,
            ParseError,
        >(m),
{
    if let Ok(m) = module_of(bytes) {
        let bytes2 = with_custom(bytes, q, size, contents);
        let d = custom_frame(size, contents).len() as int;
        let c = custom_bounds(q, size, contents);
        lemma_frame_with_custom_section(bytes, b, q, k, size, contents);
        lemma_frame_well_framed(bytes);
        assert(8 <= q <= bytes.len()) by {
            if k >= 0 {
                assert(8 < b[k].start <= b[k].end <= bytes.len());
            }
        }
        let x = b.take(k + 1);
        let z = b.skip(k + 1);
        let y = shift_bounds(z, d);
        assert(b =~= x + z);
        lemma_gather_from_concat(bytes, nothing_gathered(), x, z);
        let h1 = gather_from(bytes, nothing_gathered(), x).unwrap();
        lemma_sections_before(bytes, b, q, k, size, contents);
        lemma_gather_from_related(bytes, nothing_gathered(), x, bytes2, nothing_gathered(), x);
        let h2 = gather_from(bytes2, nothing_gathered(), x).unwrap();
        lemma_gather_custom(bytes2, h2, c);
        lemma_gather_from_concat(bytes2, nothing_gathered(), x, seq![c]);
        lemma_sections_after(bytes, b, q, k, size, contents);
        lemma_gather_from_related(bytes, h1, z, bytes2, h2, y);
        lemma_gather_from_concat(bytes2, nothing_gathered(), x + seq![c], y);
    }
}

proof fn lemma_gather_step(bytes: Seq<u8>, b: Seq<SectionBounds>, k: int)
    requires
        0 <= k < b.len(),
    ensures
        gather(bytes, b.take(k + 1)) == (match gather(bytes, b.take(k)) {
            Ok(h) => gather_section(bytes, h, b[k]),
            Err(e) => Err(e),
        }),
{
    assert(b.take(k + 1).drop_last() =~= b.take(k));
    assert(b.take(k + 1).last() == b[k]);
}

/// The sections of a module written with a type section, an import
/// section, a function section, an export section and a code section whose
/// payload starts with the number of bodies, `code_count`.
pub open spec fn written_module_sections(
    types: Seq<SpecFuncType>,
    imports: Seq<(Seq<u8>, Seq<u8>, ExternKind)>,
    functions: Seq<u32>,
    exports: Seq<(Seq<u8>, ExportKind, u32)>,
    code_count: u32,
    bodies: Seq<u8>,
) -> Seq<(u8, Seq<u8>)> {
    seq![
        (1u8, encode_unsigned(types.len()) + func_types_bytes(types)),
        (2u8, encode_unsigned(imports.len()) + imports_bytes(imports)),
        (3u8, encode_unsigned(functions.len()) + encode_all(functions)),
        (7u8, encode_unsigned(exports.len()) + exports_bytes(exports)),
        (10u8, encode_unsigned(code_count as nat) + bodies),
    ]
}

/// Such a module as bytes: the header, then its sections.
pub open spec fn written_module(
    types: Seq<SpecFuncType>,
    imports: Seq<(Seq<u8>, Seq<u8>, ExternKind)>,
    functions: Seq<u32>,
    exports: Seq<(Seq<u8>, ExportKind, u32)>,
    code_count: u32,
    bodies: Seq<u8>,
) -> Seq<u8> {
    module_header() + sections_bytes(
        written_module_sections(types, imports, functions, exports, code_count, bodies),
    )
}

/// The parts of a written module each fit the format: counts and lengths
/// fit a `u32`, names are UTF-8, limits are valid, and the whole fits in
/// memory.
pub open spec fn writable_module(
    types: Seq<SpecFuncType>,
    imports: Seq<(Seq<u8>, Seq<u8>, ExternKind)>,
    functions: Seq<u32>,
    exports: Seq<(Seq<u8>, ExportKind, u32)>,
    code_count: u32,
    bodies: Seq<u8>,
) -> bool {
    &&& types.len() <= u32::MAX
    &&& forall|i: int| 0 <= i < types.len() ==> func_type_fits(#[trigger] types[i])
    &&& imports.len() <= u32::MAX
    &&& forall|i: int| 0 <= i < imports.len() ==> writable_import(#[trigger] imports[i])
    &&& functions.len() <= u32::MAX
    &&& exports.len() <= u32::MAX
    &&& forall|i: int| 0 <= i < exports.len() ==> writable_name((#[trigger] exports[i]).0)
    &&& forall|i: int|
        0 <= i < 5 ==> (#[trigger] written_module_sections(
            types,
            imports,
            functions,
            exports,
            code_count,
            bodies,
        )[i]).1.len() < 0x1_0000_0000
    &&& written_module(types, imports, functions, exports, code_count, bodies).len() <= usize::MAX
}

#[verifier::spinoff_prover]
#[verifier::rlimit(40)]
proof fn lemma_written_module_gathers(
    types: Seq<SpecFuncType>,
    imports: Seq<(Seq<u8>, Seq<u8>, ExternKind)>,
    functions: Seq<u32>,
    exports: Seq<(Seq<u8>, ExportKind, u32)>,
    code_count: u32,
    bodies: Seq<u8>,
)
    requires
        writable_module(types, imports, functions, exports, code_count, bodies),
    ensures
        ({
            let bytes = written_module(types, imports, functions, exports, code_count, bodies);
            &&& frame(bytes) is Ok
            &&& frame(bytes).unwrap().len() == 5
            &&& gather(bytes, frame(bytes).unwrap()) == Ok::<Gathered, ParseError>(
                Gathered {
                    module: SpecModule {
                        types,
                        imports: written_imports(imports),
                        function_types: functions,
                        exports: written_exports(exports),
                        start: None,
                    },
                    import_base: Some(frame(bytes).unwrap()[1].start),
                    function_base: Some(frame(bytes).unwrap()[2].start),
                    code_base: Some(frame(bytes).unwrap()[4].start),
                    code_count: Some(code_count),
                },
            )
        }),
{
    let secs = written_module_sections(types, imports, functions, exports, code_count, bodies);
    let bytes = written_module(types, imports, functions, exports, code_count, bodies);
    let ks = seq![0int, 1, 2, 6, 10];
    assert(laid_out_in_order(secs, ks, -1)) by {
        assert forall|i: int, j: int|
            0 <= i < j < secs.len() && (#[trigger] secs[i]).0 != 0 && (#[trigger] secs[j]).0 != 0
                implies ks[i] < ks[j] by {}
    }
    lemma_sections_in_format_order_frame(secs, ks);
    let b = frame(bytes).unwrap();
    assert(holds_sections(bytes, b, secs));
    assert forall|i: int| 0 <= i < 5 implies bytes.subrange(
        (#[trigger] b[i]).start as int,
        b[i].end as int,
    ) == secs[i].1 && b[i].id == secs[i].0 by {}
    lemma_type_section_round_trip(types, b[0].start as int);
    lemma_import_section_round_trip(imports, b[1].start as int);
    lemma_function_section_round_trip(functions, b[2].start as int);
    lemma_export_section_round_trip(exports, b[3].start as int);
    lemma2_to64();
    lemma_unsigned_round_trip(Seq::<u8>::empty(), code_count as nat, bodies, 32);
    assert(Seq::<u8>::empty() + encode_unsigned(code_count as nat) + bodies =~= secs[4].1);
    let wi = written_imports(imports);
    let we = written_exports(exports);
    let g0 = nothing_gathered();
    let m0 = g0.module;
    let g1 = Gathered { module: SpecModule { types, ..m0 }, ..g0 };
    let g2 = Gathered { module: SpecModule { imports: wi, ..g1.module }, import_base: Some(b[1].start), ..g1 };
    let g3 = Gathered {
        module: SpecModule { function_types: functions, ..g2.module },
        function_base: Some(b[2].start),
        ..g2
    };
    let g4 = Gathered { module: SpecModule { exports: we, ..g3.module }, ..g3 };
    let g5 = Gathered { code_base: Some(b[4].start), code_count: Some(code_count), ..g4 };
    assert(b.take(0) =~= Seq::<SectionBounds>::empty());
    lemma_gather_step(bytes, b, 0);
    assert(gather(bytes, b.take(1)) == Ok::<Gathered, ParseError>(g1));
    lemma_gather_step(bytes, b, 1);
    assert(gather(bytes, b.take(2)) == Ok::<Gathered, ParseError>(g2));
    lemma_gather_step(bytes, b, 2);
    assert(gather(bytes, b.take(3)) == Ok::<Gathered, ParseError>(g3));
    lemma_gather_step(bytes, b, 3);
    assert(gather(bytes, b.take(4)) == Ok::<Gathered, ParseError>(g4));
    lemma_gather_step(bytes, b, 4);
    assert(gather(bytes, b.take(5)) == Ok::<Gathered, ParseError>(g5));
    assert(b.take(5) =~= b);
}

/// A module written as the header, then its types, imports, functions,
/// exports and code in the format's order, with one body per function,
/// parses to exactly those types, imports, function type indices and
/// exports whenever every function type index - of an imported function or
/// of a local one - is below the number of types. Importing functions does
/// not change which type indices the module's own functions may use.
pub proof fn lemma_written_module_parses(
    types: Seq<SpecFuncType>,
    imports: Seq<(Seq<u8>, Seq<u8>, ExternKind)>,
    functions: Seq<u32>,
    exports: Seq<(Seq<u8>, ExportKind, u32)>,
    bodies: Seq<u8>,
)
    requires
        writable_module(types, imports, functions, exports, functions.len() as u32, bodies),
        forall|i: int|
            0 <= i < imports.len() ==> ((#[trigger] imports[i]).2 matches ExternKind::Func(t) ==> t
                < types.len()),
        forall|i: int| 0 <= i < functions.len() ==> #[trigger] functions[i] < types.len(),
    ensures
        module_of(written_module(types, imports, functions, exports, functions.len() as u32, bodies))
            == Ok::<SpecModule, ParseError>(
            SpecModule {
                types,
                imports: written_imports(imports),
                function_types: functions,
                exports: written_exports(exports),
                start: None,
            },
        ),
{
    let n = functions.len() as u32;
    lemma_written_module_gathers(types, imports, functions, exports, n, bodies);
    let bytes = written_module(types, imports, functions, exports, n, bodies);
    let g = gather(bytes, frame(bytes).unwrap()).unwrap();
    lemma_references_accept(g);
    let wi = written_imports(imports);
    assert forall|i: int|
        0 <= i < wi.len() implies ((#[trigger] wi[i]).kind matches ExternKind::Func(t) ==> t < types.len()) by {
        assert(wi[i].kind == imports[i].2);
    }
}

/// In such a module with valid imports, a local function that names a type
/// index at or past the number of types is refused with
/// `TypeIndexOutOfRange` at the start of the function section's payload.
pub proof fn lemma_written_module_bad_function_type(
    types: Seq<SpecFuncType>,
    imports: Seq<(Seq<u8>, Seq<u8>, ExternKind)>,
    functions: Seq<u32>,
    exports: Seq<(Seq<u8>, ExportKind, u32)>,
    code_count: u32,
    bodies: Seq<u8>,
    k: int,
)
    requires
        writable_module(types, imports, functions, exports, code_count, bodies),
        forall|i: int|
            0 <= i < imports.len() ==> ((#[trigger] imports[i]).2 matches ExternKind::Func(t) ==> t
                < types.len()),
        0 <= k < functions.len(),
        functions[k] >= types.len(),
    ensures
        ({
            let bytes = written_module(types, imports, functions, exports, code_count, bodies);
            module_of(bytes) == Err::<SpecModule, ParseError>(
                error_at(frame(bytes).unwrap()[2].start as int, ParseErrorKind::TypeIndexOutOfRange),
            )
        }),
{
    lemma_written_module_gathers(types, imports, functions, exports, code_count, bodies);
    let wi = written_imports(imports);
    if exists|i: int|
        0 <= i < wi.len() && names_missing_type((#[trigger] wi[i]).kind, types.len()) {
        let i = choose|i: int|
            0 <= i < wi.len() && names_missing_type((#[trigger] wi[i]).kind, types.len());
        assert(wi[i].kind == imports[i].2);
    }
}

/// In such a module whose type indices are all in range, a code section
/// that declares a different number of bodies than there are local
/// functions is refused with `FunctionCodeMismatch` at the start of the
/// code section's payload.
pub proof fn lemma_written_module_code_count_mismatch(
    types: Seq<SpecFuncType>,
    imports: Seq<(Seq<u8>, Seq<u8>, ExternKind)>,
    functions: Seq<u32>,
    exports: Seq<(Seq<u8>, ExportKind, u32)>,
    code_count: u32,
    bodies: Seq<u8>,
)
    requires
        writable_module(types, imports, functions, exports, code_count, bodies),
        forall|i: int|
            0 <= i < imports.len() ==> ((#[trigger] imports[i]).2 matches ExternKind::Func(t) ==> t
                < types.len()),
        forall|i: int| 0 <= i < functions.len() ==> #[trigger] functions[i] < types.len(),
        code_count != functions.len(),
    ensures
        ({
            let bytes = written_module(types, imports, functions, exports, code_count, bodies);
            module_of(bytes) == Err::<SpecModule, ParseError>(
                error_at(frame(bytes).unwrap()[4].start as int, ParseErrorKind::FunctionCodeMismatch),
            )
        }),
{
    lemma_written_module_gathers(types, imports, functions, exports, code_count, bodies);
    let wi = written_imports(imports);
    if exists|i: int|
        0 <= i < wi.len() && names_missing_type((#[trigger] wi[i]).kind, types.len()) {
        let i = choose|i: int|
            0 <= i < wi.len() && names_missing_type((#[trigger] wi[i]).kind, types.len());
        assert(wi[i].kind == imports[i].2);
    }
}

} // verus!
