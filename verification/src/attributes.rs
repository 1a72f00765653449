//! The vertex attributes of a geometry: what is read from the model files, and how it is to be
//! decoded.

use crate::buffers::{buffer_array_of, read_buffer_array, AttrData, BufferError, Components};
use crate::float_bits::{lt_of, max_of, maximum};
use crate::gltf::{lemma_views_push, lemma_views_update, views, Attribute, AttributeView};
use crate::json::{
    first_key_value, first_key_value_of, get, get_of, member_trees, object, object_of, unsigned,
    unsigned_of, Json, Tree,
};
use crate::mesh::{parallelogram_predict, sources_exist, steps_before, PredictStep};
use crate::metadata::{flags, flags_of, meta_value, single_of, Figure};
use crate::primitives::{in_wireframe, is_in_wireframe, list_opt};
use crate::text::{
    decimal, decimal_of, digit_of, digits_value, join, occurs_at, parse_u32, parse_u32_of,
    same_text, starts_of, starts_with, trim_start, trimmed_start_of,
};
use vstd::hash_map::StringHashMap;
use vstd::prelude::*;

verus! {

/// How stored components become the components of an attribute.
#[derive(Debug)]
pub enum Decoding {
    /// They are used as they are.
    Keep,
    /// They become floating-point numbers; then vertices are predicted, then numbers are scaled
    /// from their range, then the second coordinate is flipped. Each of these only where asked.
    Floats {
        predict: Option<Vec<PredictStep>>,
        /// The lower corner of the range and the size of a step.
        range: Option<(Vec<u32>, Vec<u32>)>,
        flip: bool,
    },
    /// Pairs of them are directions, stored as angles of the given resolution.
    Normals { epsilon: u32, nphi: u32 },
}

/// The mathematical counterpart of [`Decoding`].
#[verifier::ext_equal]
pub ghost enum DecodingView {
    Keep,
    Floats {
        predict: Option<Seq<PredictStep>>,
        range: Option<(Seq<u32>, Seq<u32>)>,
        flip: bool,
    },
    Normals { epsilon: u32, nphi: u32 },
}

/// The contents of an optional list of steps.
pub open spec fn steps_opt(v: Option<Vec<PredictStep>>) -> Option<Seq<PredictStep>> {
    match v {
        Some(list) => Some(list@),
        None => None,
    }
}

/// The contents of an optional range.
pub open spec fn range_opt(v: Option<(Vec<u32>, Vec<u32>)>) -> Option<(Seq<u32>, Seq<u32>)> {
    match v {
        Some((low, step)) => Some((low@, step@)),
        None => None,
    }
}

impl View for Decoding {
    type V = DecodingView;

    open spec fn view(&self) -> DecodingView {
        match self {
            Decoding::Keep => DecodingView::Keep,
            Decoding::Floats { predict, range, flip } => DecodingView::Floats {
                predict: steps_opt(*predict),
                range: range_opt(*range),
                flip: *flip,
            },
            Decoding::Normals { epsilon, nphi } => DecodingView::Normals {
                epsilon: *epsilon,
                nphi: *nphi,
            },
        }
    }
}

/// A named attribute with its stored components, still to be decoded.
#[derive(Debug)]
pub struct AttributePlan {
    pub name: String,
    pub attribute: Attribute,
    pub decoding: Decoding,
}

/// The mathematical counterpart of [`AttributePlan`].
#[verifier::ext_equal]
pub ghost struct PlanView {
    pub name: Seq<char>,
    pub attribute: AttributeView,
    pub decoding: DecodingView,
}

impl View for AttributePlan {
    type V = PlanView;

    open spec fn view(&self) -> PlanView {
        PlanView {
            name: self.name@,
            attribute: self.attribute@,
            decoding: self.decoding@,
        }
    }
}

impl PlanView {
    /// How many components the attribute has once it is decoded.
    pub open spec fn decoded_len(self) -> int {
        match self.decoding {
            DecodingView::Normals { .. } => (self.attribute.data.len() / 2)
                * self.attribute.item_size,
            _ => self.attribute.data.len() as int,
        }
    }
}

/// The position of the attribute of that name.
pub open spec fn plan_index(list: Seq<PlanView>, name: Seq<char>, from: int) -> Option<int>
    decreases list.len() - from,
{
    if from < 0 || from >= list.len() {
        None
    } else if list[from].name == name {
        Some(from)
    } else {
        plan_index(list, name, from + 1)
    }
}

/// The list with an attribute added, in place of one with the same name if there is one.
pub open spec fn with_plan(list: Seq<PlanView>, plan: PlanView) -> Seq<PlanView> {
    match plan_index(list, plan.name, 0) {
        Some(i) => list.update(i, plan),
        None => list.push(plan),
    }
}

/// The position of the attribute of that name.
pub fn find_plan(list: &Vec<AttributePlan>, name: &str) -> (r: Option<usize>)
    ensures
        match r {
            Some(i) => plan_index(views(list@), name@, 0) == Some(i as int) && i < list@.len()
                && list@[i as int].name@ == name@,
            None => plan_index(views(list@), name@, 0) is None,
        },
{
    let mut i: usize = 0;
    while i < list.len()
        invariant
            i <= list@.len(),
            plan_index(views(list@), name@, 0) == plan_index(views(list@), name@, i as int),
        decreases list@.len() - i,
    {
        assert(views(list@)[i as int] == list@[i as int]@);
        if same_text(list[i].name.as_str(), name) {
            return Some(i);
        }
        i += 1;
    }
    None
}

/// Adds an attribute, in place of one with the same name if there is one.
pub fn put_plan(list: &mut Vec<AttributePlan>, plan: AttributePlan)
    ensures
        views(final(list)@) == with_plan(views(old(list)@), plan@),
{
    match find_plan(list, plan.name.as_str()) {
        Some(i) => {
            proof {
                lemma_views_update(list@, i as int, plan);
            }
            list.set(i, plan);
        },
        None => {
            proof {
                lemma_views_push(list@, plan);
            }
            list.push(plan);
        },
    }
}

/// Whether no two attributes share a name.
pub open spec fn names_unique(list: Seq<PlanView>) -> bool {
    forall|i: int, j: int|
        0 <= i < j < list.len() ==> (#[trigger] list[i]).name != (#[trigger] list[j]).name
}

/// Where an attribute of a name is found, it has that name; where none is found, none has it.
pub proof fn lemma_plan_index(list: Seq<PlanView>, name: Seq<char>, from: int)
    requires
        0 <= from,
    ensures
        match plan_index(list, name, from) {
            Some(i) => from <= i < list.len() && list[i].name == name,
            None => forall|j: int| from <= j < list.len() ==> (#[trigger] list[j]).name != name,
        },
    decreases list.len() - from,
{
    if from < list.len() && list[from].name != name {
        lemma_plan_index(list, name, from + 1);
    }
}

/// Adding an attribute keeps names unique, and the attribute is then found under its name.
pub proof fn law_names_stay_unique(list: Seq<PlanView>, plan: PlanView)
    requires
        names_unique(list),
    ensures
        names_unique(with_plan(list, plan)),
        plan_index(with_plan(list, plan), plan.name, 0) matches Some(i) && with_plan(list, plan)[i]
            == plan,
{
    lemma_plan_index(list, plan.name, 0);
    let after = with_plan(list, plan);
    assert forall|i: int, j: int| 0 <= i < j < after.len() implies (#[trigger] after[i]).name != (
    #[trigger] after[j]).name by {
        match plan_index(list, plan.name, 0) {
            Some(k) => {
                assert(list[i].name != list[j].name);
            },
            None => {
                if j < list.len() {
                    assert(list[i].name != list[j].name);
                }
            },
        }
    }
    lemma_plan_index(after, plan.name, 0);
    match plan_index(list, plan.name, 0) {
        Some(k) => {
            assert(after[k] == plan);
        },
        None => {
            assert(after[list.len() as int] == plan);
        },
    }
}

/// A size read from a definition.
pub open spec fn size_of(v: Option<u64>, default: int) -> int {
    match v {
        Some(n) => n as int,
        None => default,
    }
}

/// A size read from a definition, nothing if it does not fit.
pub fn size_or(v: Option<u64>, default: usize) -> (r: Option<usize>)
    ensures
        match r {
            Some(n) => n == size_of(v, default as int),
            None => size_of(v, default as int) > usize::MAX,
        },
{
    match v {
        Some(n) => if n <= usize::MAX as u64 {
            Some(n as usize)
        } else {
            None
        },
        None => Some(default),
    }
}

/// The predictions along the last strip, where they are asked for and there is a strip. An
/// attribute without components cannot be predicted.
pub open spec fn prediction(
    wanted: bool,
    strip: Option<Seq<u32>>,
    len: int,
    item_size: int,
) -> Result<Option<Seq<PredictStep>>, BufferError> {
    if wanted && strip is Some {
        let s = strip->0;
        if s.len() < 3 {
            Ok(Some(Seq::empty()))
        } else if item_size == 0 || !sources_exist(len / item_size, s, s.len() as int) {
            Err(BufferError::OutOfRange)
        } else {
            Ok(Some(steps_before(len / item_size, s, s.len() as int)))
        }
    } else {
        Ok(None)
    }
}

/// The predictions along the last strip.
fn predict(wanted: bool, strip: &Option<Vec<u32>>, len: usize, item_size: usize) -> (r: Result<
    Option<Vec<PredictStep>>,
    BufferError,
>)
    ensures
        match r {
            Ok(p) => prediction(wanted, list_opt(*strip), len as int, item_size as int) == Ok::<
                Option<Seq<PredictStep>>,
                BufferError,
            >(steps_opt(p)),
            Err(e) => prediction(wanted, list_opt(*strip), len as int, item_size as int) == Err::<
                Option<Seq<PredictStep>>,
                BufferError,
            >(e),
        },
{
    match strip {
        Some(s) => {
            if !wanted {
                return Ok(None);
            }
            if s.len() < 3 {
                let none: Vec<PredictStep> = Vec::new();
                assert(none@ =~= Seq::<PredictStep>::empty());
                return Ok(Some(none));
            }
            if item_size == 0 {
                return Err(BufferError::OutOfRange);
            }
            match parallelogram_predict(len / item_size, s.as_slice()) {
                Some(steps) => Ok(Some(steps)),
                None => Err(BufferError::OutOfRange),
            }
        },
        None => Ok(None),
    }
}

/// The range of positions, where it is given: two numbers each, three for three components.
pub open spec fn position_range(meta: Map<Seq<char>, Figure>, item_size: int) -> Option<
    (Seq<u32>, Seq<u32>),
> {
    if !meta.contains_key("vtx_bbl_x"@) {
        None
    } else if item_size == 3 {
        Some(
            (
                seq![
                    single_of(meta, "vtx_bbl_x"@),
                    single_of(meta, "vtx_bbl_y"@),
                    single_of(meta, "vtx_bbl_z"@),
                ],
                seq![
                    single_of(meta, "vtx_h_x"@),
                    single_of(meta, "vtx_h_y"@),
                    single_of(meta, "vtx_h_z"@),
                ],
            ),
        )
    } else {
        Some(
            (
                seq![single_of(meta, "vtx_bbl_x"@), single_of(meta, "vtx_bbl_y"@)],
                seq![single_of(meta, "vtx_h_x"@), single_of(meta, "vtx_h_y"@)],
            ),
        )
    }
}

/// The range of positions, where it is given.
pub fn read_position_range(meta: &StringHashMap<Figure>, item_size: usize) -> (r: Option<
    (Vec<u32>, Vec<u32>),
>)
    ensures
        range_opt(r) == position_range(meta@, item_size as int),
{
    if !meta.contains_key("vtx_bbl_x") {
        return None;
    }
    let mut low: Vec<u32> = Vec::new();
    let mut step: Vec<u32> = Vec::new();
    low.push(meta_value(meta, "vtx_bbl_x"));
    low.push(meta_value(meta, "vtx_bbl_y"));
    step.push(meta_value(meta, "vtx_h_x"));
    step.push(meta_value(meta, "vtx_h_y"));
    if item_size == 3 {
        low.push(meta_value(meta, "vtx_bbl_z"));
        step.push(meta_value(meta, "vtx_h_z"));
    }
    proof {
        let goal = position_range(meta@, item_size as int).unwrap();
        assert(low@ =~= goal.0);
        assert(step@ =~= goal.1);
    }
    Some((low, step))
}

/// The prefix of the names of a texture coordinate's numbers.
pub open spec fn uv_prefix(suffix: Seq<char>) -> Seq<char> {
    "uv_"@ + suffix + "_"@
}

/// The flags of a texture coordinate: its own, or those of the vertices.
pub open spec fn uv_mode(meta: Map<Seq<char>, Figure>, suffix: Seq<char>) -> u32 {
    if meta.contains_key(uv_prefix(suffix) + "mode"@) {
        flags_of(meta, uv_prefix(suffix) + "mode"@)
    } else {
        flags_of(meta, "vertex_mode"@)
    }
}

/// The range of a texture coordinate, where it is given.
pub open spec fn uv_range(meta: Map<Seq<char>, Figure>, suffix: Seq<char>) -> Option<
    (Seq<u32>, Seq<u32>),
> {
    let prefix = uv_prefix(suffix);
    if meta.contains_key(prefix + "bbl_x"@) {
        Some(
            (
                seq![single_of(meta, prefix + "bbl_x"@), single_of(meta, prefix + "bbl_y"@)],
                seq![single_of(meta, prefix + "h_x"@), single_of(meta, prefix + "h_y"@)],
            ),
        )
    } else {
        None
    }
}

/// The range of a texture coordinate, where it is given.
fn read_uv_range(meta: &StringHashMap<Figure>, prefix: &str) -> (r: Option<(Vec<u32>, Vec<u32>)>)
    ensures
        forall|suffix: Seq<char>|
            prefix@ == #[trigger] uv_prefix(suffix) ==> range_opt(r) == uv_range(meta@, suffix),
{
    let low_x = join(prefix, "bbl_x");
    if !meta.contains_key(low_x.as_str()) {
        return None;
    }
    let mut low: Vec<u32> = Vec::new();
    let mut step: Vec<u32> = Vec::new();
    low.push(meta_value(meta, low_x.as_str()));
    low.push(meta_value(meta, join(prefix, "bbl_y").as_str()));
    step.push(meta_value(meta, join(prefix, "h_x").as_str()));
    step.push(meta_value(meta, join(prefix, "h_y").as_str()));
    proof {
        assert forall|suffix: Seq<char>| prefix@ == #[trigger] uv_prefix(suffix) implies Some(
            (low@, step@),
        ) == uv_range(meta@, suffix) by {
            let goal = uv_range(meta@, suffix).unwrap();
            assert(low@ =~= goal.0);
            assert(step@ =~= goal.1);
        }
    }
    Some((low, step))
}

/// The resolution of directions: the given numbers, but at least a quarter of a degree and 720
/// steps.
pub open spec fn resolution(meta: Map<Seq<char>, Figure>) -> DecodingView {
    DecodingView::Normals {
        epsilon: max_of(single_of(meta, "epsilon"@), 0x3e80_0000),
        nphi: max_of(single_of(meta, "nphi"@), 0x4434_0000),
    }
}

/// The resolution of directions.
pub fn read_resolution(meta: &StringHashMap<Figure>) -> (r: Decoding)
    ensures
        r@ == resolution(meta@),
{
    Decoding::Normals {
        epsilon: maximum(meta_value(meta, "epsilon"), 0x3e80_0000),
        nphi: maximum(meta_value(meta, "nphi"), 0x4434_0000),
    }
}

/// An attribute of floating-point numbers.
pub open spec fn float_attribute(data: Components, item_size: int, count: int) -> AttributeView {
    AttributeView {
        data,
        item_size: item_size as usize,
        count: count as usize,
        component_type: 5126,
        normalized: false,
    }
}

/// Whether components do not come in items that can be scaled from a range, or have a second
/// coordinate to flip.
pub open spec fn undecodable(
    len: int,
    item_size: int,
    range: Option<(Seq<u32>, Seq<u32>)>,
    flip: bool,
) -> bool {
    ||| range matches Some((low, _)) && (item_size == 0 || (len >= item_size && item_size
        > low.len()))
    ||| flip && (item_size == 0 || (item_size == 1 && len >= 1))
}

/// Whether components cannot be scaled and flipped.
pub fn cannot_decode(
    len: usize,
    item_size: usize,
    range: &Option<(Vec<u32>, Vec<u32>)>,
    flip: bool,
) -> (r: bool)
    ensures
        r == undecodable(len as int, item_size as int, range_opt(*range), flip),
{
    let scaled = match range {
        Some((low, _)) => item_size == 0 || (len >= item_size && item_size > low.len()),
        None => false,
    };
    scaled || (flip && (item_size == 0 || (item_size == 1 && len >= 1)))
}

/// The attribute that the stored components under a source name become. Directions are decoded
/// only where the geometry's flags say that they are encoded; a name that is not known gives
/// nothing.
pub open spec fn planned(
    name: Seq<char>,
    data: Components,
    item_size: int,
    count: int,
    meta: Map<Seq<char>, Figure>,
    strip: Option<Seq<u32>>,
) -> Result<Option<PlanView>, BufferError> {
    let encoded = flags_of(meta, "attributes"@);
    if name == "Vertex"@ {
        match prediction(
            flags_of(meta, "vertex_mode"@) & 2 != 0,
            strip,
            data.len() as int,
            item_size,
        ) {
            Err(e) => Err(e),
            Ok(predict) => {
                let range = position_range(meta, item_size);
                if undecodable(data.len() as int, item_size, range, false) {
                    Err(BufferError::OutOfRange)
                } else {
                    Ok(
                        Some(
                            PlanView {
                                name: "POSITION"@,
                                attribute: float_attribute(data, item_size, count),
                                decoding: DecodingView::Floats { predict, range, flip: false },
                            },
                        ),
                    )
                }
            },
        }
    } else if name == "Normal"@ && encoded & 2 != 0 {
        Ok(
            Some(
                PlanView {
                    name: "NORMAL"@,
                    attribute: float_attribute(data, 3, count),
                    decoding: resolution(meta),
                },
            ),
        )
    } else if name == "Tangent"@ && encoded & 32 != 0 {
        Ok(
            Some(
                PlanView {
                    name: "TANGENT"@,
                    attribute: float_attribute(data, 4, count),
                    decoding: resolution(meta),
                },
            ),
        )
    } else if starts_of(name, "TexCoord"@) {
        let suffix = trimmed_start_of(name, "TexCoord"@);
        match prediction(uv_mode(meta, suffix) & 2 != 0, strip, data.len() as int, item_size) {
            Err(e) => Err(e),
            Ok(predict) => {
                let range = uv_range(meta, suffix);
                if undecodable(data.len() as int, item_size, range, true) {
                    Err(BufferError::OutOfRange)
                } else {
                    Ok(
                        Some(
                            PlanView {
                                name: "_TC_"@ + suffix,
                                attribute: float_attribute(
                                    data,
                                    if item_size < 2 {
                                        2
                                    } else {
                                        item_size
                                    },
                                    count,
                                ),
                                decoding: DecodingView::Floats { predict, range, flip: true },
                            },
                        ),
                    )
                }
            },
        }
    } else if name == "Color"@ {
        Ok(
            Some(
                if data is U8 {
                    PlanView {
                        name: "_SKETCHFAB_COLOR_0"@,
                        attribute: AttributeView {
                            data,
                            item_size: item_size as usize,
                            count: count as usize,
                            component_type: 5121,
                            normalized: true,
                        },
                        decoding: DecodingView::Keep,
                    }
                } else {
                    PlanView {
                        name: "_SKETCHFAB_COLOR_0"@,
                        attribute: float_attribute(data, item_size, count),
                        decoding: DecodingView::Floats { predict: None, range: None, flip: false },
                    }
                },
            ),
        )
    } else {
        Ok(None)
    }
}

/// An owned copy of a text.
pub fn own(s: &str) -> (r: String)
    ensures
        r@ == s@,
{
    crate::text::string_of(crate::text::chars_of(s).as_slice())
}

/// A plan for floating-point numbers.
pub fn float_plan(
    name: String,
    data: AttrData,
    item_size: usize,
    count: usize,
    decoding: Decoding,
) -> (r: AttributePlan)
    ensures
        r@ == (PlanView {
            name: name@,
            attribute: float_attribute(data@, item_size as int, count as int),
            decoding: decoding@,
        }),
{
    AttributePlan {
        name,
        attribute: Attribute { data, item_size, count, component_type: 5126, normalized: false },
        decoding,
    }
}

/// A result with its plan seen as a mathematical value.
pub open spec fn plan_view(r: Result<Option<AttributePlan>, BufferError>) -> Result<
    Option<PlanView>,
    BufferError,
> {
    match r {
        Ok(Some(p)) => Ok(Some(p@)),
        Ok(None) => Ok(None),
        Err(e) => Err(e),
    }
}

/// Whether an attribute's components come in whole items that can be scaled from its range and
/// flipped.
pub open spec fn decodable(p: PlanView) -> bool {
    match p.decoding {
        DecodingView::Floats { range, flip, .. } => {
            &&& range matches Some((low, step)) ==> low.len() == step.len() && (
            p.attribute.item_size <= low.len() || p.attribute.data.len() < p.attribute.item_size)
            &&& flip ==> p.attribute.item_size >= 2
        },
        _ => true,
    }
}

/// Every planned attribute can be decoded.
pub proof fn law_planned_can_be_decoded(
    name: Seq<char>,
    data: Components,
    item_size: usize,
    count: usize,
    meta: Map<Seq<char>, Figure>,
    strip: Option<Seq<u32>>,
)
    ensures
        planned(name, data, item_size as int, count as int, meta, strip) matches Ok(Some(p))
            ==> decodable(p),
{
}

/// Plans a texture coordinate.
fn plan_texcoord(
    name: &str,
    data: AttrData,
    item_size: usize,
    count: usize,
    meta: &StringHashMap<Figure>,
    strip: &Option<Vec<u32>>,
) -> (r: Result<Option<AttributePlan>, BufferError>)
    requires
        starts_of(name@, "TexCoord"@),
        name@ != "Vertex"@,
        name@ != "Normal"@,
        name@ != "Tangent"@,
    ensures
        plan_view(r) == planned(
            name@,
            data@,
            item_size as int,
            count as int,
            meta@,
            list_opt(*strip),
        ),
{
    proof {
        reveal_strlit("TexCoord");
    }
    let suffix = trim_start(name, "TexCoord");
    let prefix = join(join("uv_", suffix.as_str()).as_str(), "_");
    assert(prefix@ == uv_prefix(suffix@));
    let mode_key = join(prefix.as_str(), "mode");
    let mode: u32 = if meta.contains_key(mode_key.as_str()) {
        flags(meta, mode_key.as_str())
    } else {
        flags(meta, "vertex_mode")
    };
    let steps = match predict(mode & 2 != 0, strip, data.len(), item_size) {
        Ok(p) => p,
        Err(e) => {
            return Err(e);
        },
    };
    let range = read_uv_range(meta, prefix.as_str());
    if cannot_decode(data.len(), item_size, &range, true) {
        return Err(BufferError::OutOfRange);
    }
    let size: usize = if item_size < 2 {
        2
    } else {
        item_size
    };
    let plan = float_plan(
        join("_TC_", suffix.as_str()),
        data,
        size,
        count,
        Decoding::Floats { predict: steps, range, flip: true },
    );
    Ok(Some(plan))
}

/// The attribute that the stored components under a source name become.
fn plan_attribute(
    name: &str,
    data: AttrData,
    item_size: usize,
    count: usize,
    meta: &StringHashMap<Figure>,
    strip: &Option<Vec<u32>>,
) -> (r: Result<Option<AttributePlan>, BufferError>)
    ensures
        plan_view(r) == planned(
            name@,
            data@,
            item_size as int,
            count as int,
            meta@,
            list_opt(*strip),
        ),
{
    let encoded: u32 = flags(meta, "attributes");
    proof {
        reveal_strlit("Vertex");
        reveal_strlit("Normal");
        reveal_strlit("Tangent");
        reveal_strlit("TexCoord");
        reveal_strlit("Color");
    }
    if same_text(name, "Vertex") {
        let wanted = flags(meta, "vertex_mode") & 2 != 0;
        let steps = match predict(wanted, strip, data.len(), item_size) {
            Ok(p) => p,
            Err(e) => {
                return Err(e);
            },
        };
        let range = read_position_range(meta, item_size);
        if cannot_decode(data.len(), item_size, &range, false) {
            return Err(BufferError::OutOfRange);
        }
        let plan = float_plan(
            own("POSITION"),
            data,
            item_size,
            count,
            Decoding::Floats { predict: steps, range, flip: false },
        );
        return Ok(Some(plan));
    }
    if same_text(name, "Normal") && encoded & 2 != 0 {
        let plan = float_plan(own("NORMAL"), data, 3, count, read_resolution(meta));
        return Ok(Some(plan));
    }
    if same_text(name, "Tangent") && encoded & 32 != 0 {
        let plan = float_plan(own("TANGENT"), data, 4, count, read_resolution(meta));
        return Ok(Some(plan));
    }
    if starts_with(name, "TexCoord") {
        proof {
            let part = name@.subrange(0, 8);
            assert(part == "TexCoord"@);
            assert(name@.len() >= 8 && name@[2] == part[2]);
        }
        return plan_texcoord(name, data, item_size, count, meta, strip);
    }
    if same_text(name, "Color") {
        let is_bytes = match &data {
            AttrData::U8(_) => true,
            _ => false,
        };
        if is_bytes {
            return Ok(
                Some(
                    AttributePlan {
                        name: own("_SKETCHFAB_COLOR_0"),
                        attribute: Attribute {
                            data,
                            item_size,
                            count,
                            component_type: 5121,
                            normalized: true,
                        },
                        decoding: Decoding::Keep,
                    },
                ),
            );
        }
        let plan = float_plan(
            own("_SKETCHFAB_COLOR_0"),
            data,
            item_size,
            count,
            Decoding::Floats { predict: None, range: None, flip: false },
        );
        return Ok(Some(plan));
    }
    Ok(None)
}

/// The files of a model. The wireframe file may be missing.
pub struct ModelFiles<'a> {
    pub poly: &'a [u8],
    pub wire: Option<&'a [u8]>,
}

/// The bytes of an optional file.
pub open spec fn bytes_opt(v: Option<&[u8]>) -> Option<Seq<u8>> {
    match v {
        Some(b) => Some(b@),
        None => None,
    }
}

/// The attributes after one more definition.
pub open spec fn attribute_added(
    list: Seq<PlanView>,
    name: Seq<char>,
    def: Tree,
    meta: Map<Seq<char>, Figure>,
    strip: Option<Seq<u32>>,
    poly: Seq<u8>,
    wire: Option<Seq<u8>>,
) -> Result<Seq<PlanView>, BufferError> {
    match first_key_value_of(get_of(Some(def), "Array"@)) {
        None => Ok(list),
        Some((array_type, array_def)) => {
            let item_size = size_of(unsigned_of(get_of(Some(def), "ItemSize"@)), 1);
            let count = size_of(unsigned_of(get_of(Some(array_def), "Size"@)), 0);
            if in_wireframe(array_def) && wire is None {
                Ok(list)
            } else if item_size > usize::MAX || count > usize::MAX {
                Err(BufferError::OutOfRange)
            } else {
                let bin = if in_wireframe(array_def) {
                    wire->0
                } else {
                    poly
                };
                match buffer_array_of(bin, array_def, item_size, array_type) {
                    Err(e) => Err(e),
                    Ok(data) => match planned(name, data, item_size, count, meta, strip) {
                        Err(e) => Err(e),
                        Ok(None) => Ok(list),
                        Ok(Some(plan)) => Ok(with_plan(list, plan)),
                    },
                }
            }
        },
    }
}

/// The attributes after the definitions from `from` on.
pub open spec fn attributes_added(
    members: Seq<(Seq<char>, Tree)>,
    from: int,
    meta: Map<Seq<char>, Figure>,
    strip: Option<Seq<u32>>,
    poly: Seq<u8>,
    wire: Option<Seq<u8>>,
    list: Seq<PlanView>,
) -> Result<Seq<PlanView>, BufferError>
    decreases members.len() - from,
{
    if from < 0 || from >= members.len() {
        Ok(list)
    } else {
        match attribute_added(list, members[from].0, members[from].1, meta, strip, poly, wire) {
            Err(e) => Err(e),
            Ok(next) => attributes_added(members, from + 1, meta, strip, poly, wire, next),
        }
    }
}

/// The definitions of a geometry's attributes.
pub open spec fn attribute_members(geom: Tree) -> Seq<(Seq<char>, Tree)> {
    match object_of(get_of(Some(geom), "VertexAttributeList"@)) {
        Some(members) => members,
        None => Seq::empty(),
    }
}

/// The attributes of a geometry, under their interim names.
pub open spec fn attributes_of(
    geom: Tree,
    meta: Map<Seq<char>, Figure>,
    strip: Option<Seq<u32>>,
    poly: Seq<u8>,
    wire: Option<Seq<u8>>,
) -> Result<Seq<PlanView>, BufferError> {
    attributes_added(attribute_members(geom), 0, meta, strip, poly, wire, Seq::empty())
}

/// Adds the attribute of one definition.
fn add_attribute(
    list: &mut Vec<AttributePlan>,
    name: &str,
    def: &Json,
    meta: &StringHashMap<Figure>,
    strip: &Option<Vec<u32>>,
    files: &ModelFiles,
) -> (r: Result<(), BufferError>)
    ensures
        match r {
            Ok(_) => attribute_added(
                views(old(list)@),
                name@,
                def@,
                meta@,
                list_opt(*strip),
                files.poly@,
                bytes_opt(files.wire),
            ) == Ok::<Seq<PlanView>, BufferError>(views(final(list)@)),
            Err(e) => attribute_added(
                views(old(list)@),
                name@,
                def@,
                meta@,
                list_opt(*strip),
                files.poly@,
                bytes_opt(files.wire),
            ) == Err::<Seq<PlanView>, BufferError>(e),
        },
{
    let (array_type, array_def) = match first_key_value(get(Some(def), "Array")) {
        Some(pair) => pair,
        None => {
            return Ok(());
        },
    };
    let bin = if is_in_wireframe(array_def) {
        match files.wire {
            Some(w) => w,
            None => {
                return Ok(());
            },
        }
    } else {
        files.poly
    };
    let item_size: usize = match size_or(unsigned(get(Some(def), "ItemSize")), 1) {
        Some(n) => n,
        None => {
            return Err(BufferError::OutOfRange);
        },
    };
    let count: usize = match size_or(unsigned(get(Some(array_def), "Size")), 0) {
        Some(n) => n,
        None => {
            return Err(BufferError::OutOfRange);
        },
    };
    let data = match read_buffer_array(bin, array_def, item_size, array_type.as_str()) {
        Ok(d) => d,
        Err(e) => {
            return Err(e);
        },
    };
    match plan_attribute(name, data, item_size, count, meta, strip) {
        Ok(Some(plan)) => {
            put_plan(list, plan);
            Ok(())
        },
        Ok(None) => Ok(()),
        Err(e) => Err(e),
    }
}

/// Reads the attributes of a geometry.
pub fn read_attributes(
    geom: &Json,
    meta: &StringHashMap<Figure>,
    strip: &Option<Vec<u32>>,
    files: &ModelFiles,
) -> (r: Result<Vec<AttributePlan>, BufferError>)
    ensures
        match r {
            Ok(list) => attributes_of(
                geom@,
                meta@,
                list_opt(*strip),
                files.poly@,
                bytes_opt(files.wire),
            ) == Ok::<Seq<PlanView>, BufferError>(views(list@)),
            Err(e) => attributes_of(
                geom@,
                meta@,
                list_opt(*strip),
                files.poly@,
                bytes_opt(files.wire),
            ) == Err::<Seq<PlanView>, BufferError>(e),
        },
{
    let mut list: Vec<AttributePlan> = Vec::new();
    assert(views(list@) =~= Seq::<PlanView>::empty());
    let ghost goal = attributes_of(
        geom@,
        meta@,
        list_opt(*strip),
        files.poly@,
        bytes_opt(files.wire),
    );
    match object(get(Some(geom), "VertexAttributeList")) {
        Some(members) => {
            let ghost defs = member_trees(members@);
            let mut i: usize = 0;
            while i < members.len()
                invariant
                    i <= members@.len(),
                    defs == member_trees(members@),
                    goal == attributes_of(
                        geom@,
                        meta@,
                        list_opt(*strip),
                        files.poly@,
                        bytes_opt(files.wire),
                    ),
                    goal == attributes_added(
                        defs,
                        i as int,
                        meta@,
                        list_opt(*strip),
                        files.poly@,
                        bytes_opt(files.wire),
                        views(list@),
                    ),
                decreases members@.len() - i,
            {
                assert(defs[i as int] == (members@[i as int].0@, members@[i as int].1@));
                match add_attribute(
                    &mut list,
                    members[i].0.as_str(),
                    &members[i].1,
                    meta,
                    strip,
                    files,
                ) {
                    Ok(_) => {},
                    Err(e) => {
                        return Err(e);
                    },
                }
                i += 1;
            }
        },
        None => {},
    }
    Ok(list)
}

/// The source unit of a texture coordinate's interim name.
pub open spec fn unit_of(name: Seq<char>) -> Option<u32> {
    if starts_of(name, "_TC_"@) {
        parse_u32_of(trimmed_start_of(name, "_TC_"@))
    } else {
        None
    }
}

/// Where a unit goes in an ascending list: behind all that are not greater.
pub open spec fn unit_place(order: Seq<(u32, int)>, unit: u32, from: int) -> int
    decreases order.len() - from,
{
    if from < 0 || from >= order.len() || order[from].0 > unit {
        from
    } else {
        unit_place(order, unit, from + 1)
    }
}

/// The texture coordinates among the first `n` attributes, as units and positions, by ascending
/// unit; those of one unit in the order of the attributes.
pub open spec fn unit_order(list: Seq<PlanView>, n: int) -> Seq<(u32, int)>
    decreases n,
{
    if n <= 0 {
        Seq::empty()
    } else {
        let before = unit_order(list, n - 1);
        match unit_of(list[n - 1].name) {
            Some(unit) => before.insert(unit_place(before, unit, 0), (unit, n - 1)),
            None => before,
        }
    }
}

/// The final name of texture coordinate `k`.
pub open spec fn texcoord_name(k: nat) -> Seq<char> {
    "TEXCOORD_"@ + decimal_of(k)
}

/// The attributes with the first `n` texture coordinates under their final names.
pub open spec fn renamed(list: Seq<PlanView>, order: Seq<(u32, int)>, n: int) -> Seq<PlanView>
    decreases n,
{
    if n <= 0 {
        list
    } else {
        let before = renamed(list, order, n - 1);
        let at = order[n - 1].1;
        before.update(at, PlanView { name: texcoord_name((n - 1) as nat), ..before[at] })
    }
}

/// Which source unit became which texture coordinate, by ascending unit. Of several coordinates
/// of one unit the last counts.
pub open spec fn unit_table(order: Seq<(u32, int)>, n: int) -> Seq<(u32, u32)>
    decreases n,
{
    if n <= 0 {
        Seq::empty()
    } else {
        let before = unit_table(order, n - 1);
        let entry = (order[n - 1].0, (n - 1) as u32);
        if before.len() > 0 && before.last().0 == entry.0 {
            before.update(before.len() - 1, entry)
        } else {
            before.push(entry)
        }
    }
}

/// A unit's place lies within the list, behind smaller ones and before greater ones.
proof fn lemma_unit_place(order: Seq<(u32, int)>, unit: u32, from: int)
    requires
        0 <= from <= order.len(),
    ensures
        from <= unit_place(order, unit, from) <= order.len(),
        forall|k: int| from <= k < unit_place(order, unit, from) ==> order[k].0 <= unit,
        unit_place(order, unit, from) < order.len() ==> order[unit_place(order, unit, from)].0
            > unit,
    decreases order.len() - from,
{
    if from < order.len() && order[from].0 <= unit {
        lemma_unit_place(order, unit, from + 1);
    }
}

/// Whether a list of units is ascending and names different positions below `n`.
pub open spec fn order_ok(order: Seq<(u32, int)>, n: int) -> bool {
    &&& forall|i: int| 0 <= i < order.len() ==> 0 <= (#[trigger] order[i]).1 < n
    &&& forall|i: int, j: int|
        0 <= i < j < order.len() ==> (#[trigger] order[i]).0 <= (#[trigger] order[j]).0
            && order[i].1 != order[j].1
}

/// The texture coordinates are listed by ascending unit, each once.
pub proof fn law_units_ascend(list: Seq<PlanView>, n: int)
    requires
        0 <= n <= list.len(),
    ensures
        order_ok(unit_order(list, n), n),
        unit_order(list, n).len() <= n,
    decreases n,
{
    if n > 0 {
        law_units_ascend(list, n - 1);
        let before = unit_order(list, n - 1);
        match unit_of(list[n - 1].name) {
            Some(unit) => {
                lemma_unit_place(before, unit, 0);
                let at = unit_place(before, unit, 0);
                let after = unit_order(list, n);
                assert(after == before.insert(at, (unit, n - 1)));
                assert forall|i: int, j: int| 0 <= i < j < after.len() implies (
                #[trigger] after[i]).0 <= (#[trigger] after[j]).0 && after[i].1 != after[j].1 by {
                    let i0 = if i < at {
                        i
                    } else {
                        i - 1
                    };
                    let j0 = if j < at {
                        j
                    } else {
                        j - 1
                    };
                    if i == at {
                        assert(after[j] == before[j0]);
                        if j0 > at {
                            assert(before[at].0 <= before[j0].0);
                        }
                    } else if j == at {
                        assert(after[i] == before[i]);
                    } else {
                        assert(after[i] == before[i0] && after[j] == before[j0]);
                    }
                }
                assert forall|i: int| 0 <= i < after.len() implies 0 <= (#[trigger] after[i]).1
                    < n by {
                    if i < at {
                        assert(after[i] == before[i]);
                    } else if i > at {
                        assert(after[i] == before[i - 1]);
                    }
                }
            },
            None => {},
        }
    }
}

/// Texture coordinate `k` in the order of units gets the number `k`: the numbers in the result
/// are dense, whatever the units were.
pub proof fn law_texcoords_are_dense(list: Seq<PlanView>, order: Seq<(u32, int)>, n: int, k: int)
    requires
        order_ok(order, list.len() as int),
        0 <= k < n <= order.len(),
    ensures
        renamed(list, order, n).len() == list.len(),
        renamed(list, order, n)[order[k].1] == (PlanView {
            name: texcoord_name(k as nat),
            ..list[order[k].1]
        }),
    decreases n,
{
    lemma_renamed_elsewhere(list, order, n - 1, order[n - 1].1);
    if k < n - 1 {
        law_texcoords_are_dense(list, order, n - 1, k);
        assert(order[k].1 != order[n - 1].1);
    }
}

/// An attribute that is not renamed yet is as it was.
proof fn lemma_renamed_elsewhere(list: Seq<PlanView>, order: Seq<(u32, int)>, n: int, at: int)
    requires
        order_ok(order, list.len() as int),
        0 <= n <= order.len(),
        0 <= at < list.len(),
        forall|k: int| 0 <= k < n ==> (#[trigger] order[k]).1 != at,
    ensures
        renamed(list, order, n).len() == list.len(),
        renamed(list, order, n)[at] == list[at],
    decreases n,
{
    if n > 0 {
        assert(order[n - 1].1 != at);
        lemma_renamed_elsewhere(list, order, n - 1, at);
    }
}

/// The table of units names each unit once, in ascending order, with numbers below the count of
/// texture coordinates.
pub proof fn law_unit_table_ascends(order: Seq<(u32, int)>, n: int, limit: int)
    requires
        order_ok(order, limit),
        0 <= n <= order.len() <= u32::MAX,
    ensures
        forall|i: int, j: int|
            0 <= i < j < unit_table(order, n).len() ==> (#[trigger] unit_table(order, n)[i]).0 < (
            #[trigger] unit_table(order, n)[j]).0,
        forall|i: int| 0 <= i < unit_table(order, n).len() ==> (#[trigger] unit_table(order, n)[i]).1
            < n,
        n > 0 ==> unit_table(order, n).len() > 0 && unit_table(order, n).last() == (
            order[n - 1].0,
            (n - 1) as u32,
        ),
    decreases n,
{
    if n > 0 {
        law_unit_table_ascends(order, n - 1, limit);
        let before = unit_table(order, n - 1);
        if n > 1 {
            assert(order[n - 2].0 <= order[n - 1].0);
        }
        let after = unit_table(order, n);
        assert forall|i: int, j: int| 0 <= i < j < after.len() implies (#[trigger] after[i]).0 < (
        #[trigger] after[j]).0 by {
            assert(after[i] == before[i]);
            if j < before.len() {
                assert(before[i].0 < before[j].0);
            } else if i < before.len() - 1 {
                assert(before[i].0 < before.last().0);
            }
        }
    }
}

/// Lists the texture coordinates by ascending unit.
fn list_units(list: &Vec<AttributePlan>) -> (r: Vec<(u32, usize)>)
    ensures
        order_view(r@) == unit_order(views(list@), list@.len() as int),
{
    let mut order: Vec<(u32, usize)> = Vec::new();
    assert(order_view(order@) =~= Seq::<(u32, int)>::empty());
    proof {
        reveal_strlit("_TC_");
    }
    let mut i: usize = 0;
    while i < list.len()
        invariant
            i <= list@.len(),
            "_TC_"@.len() > 0,
            order_view(order@) == unit_order(views(list@), i as int),
        decreases list@.len() - i,
    {
        let name = list[i].name.as_str();
        assert(views(list@)[i as int] == list@[i as int]@);
        if starts_with(name, "_TC_") {
            match parse_u32(trim_start(name, "_TC_").as_str()) {
                Some(unit) => {
                    let ghost before = order_view(order@);
                    let mut at: usize = 0;
                    while at < order.len() && order[at].0 <= unit
                        invariant
                            at <= order@.len(),
                            before == order_view(order@),
                            unit_place(before, unit, 0) == unit_place(before, unit, at as int),
                        decreases order@.len() - at,
                    {
                        assert(before[at as int].0 == order@[at as int].0);
                        at += 1;
                    }
                    proof {
                        if at < order@.len() {
                            assert(before[at as int].0 == order@[at as int].0);
                        }
                        lemma_unit_place(before, unit, 0);
                    }
                    order.insert(at, (unit, i));
                    assert(order_view(order@) =~= before.insert(at as int, (unit, i as int)));
                },
                None => {},
            }
        }
        i += 1;
    }
    order
}

/// Units and positions, with positions as mathematical integers.
pub open spec fn order_view(order: Seq<(u32, usize)>) -> Seq<(u32, int)> {
    Seq::new(order.len(), |i: int| (order[i].0, order[i].1 as int))
}

/// The attributes with all texture coordinates under their final names.
pub open spec fn all_renamed(list: Seq<PlanView>) -> Seq<PlanView> {
    let order = unit_order(list, list.len() as int);
    renamed(list, order, order.len() as int)
}

/// Which source unit became which texture coordinate.
pub open spec fn units_of(list: Seq<PlanView>) -> Seq<(u32, u32)> {
    let order = unit_order(list, list.len() as int);
    unit_table(order, order.len() as int)
}

/// Renames an attribute.
fn rename(list: &mut Vec<AttributePlan>, at: usize, name: String)
    requires
        at < old(list)@.len(),
    ensures
        final(list)@.len() == old(list)@.len(),
        views(final(list)@) == views(old(list)@).update(
            at as int,
            PlanView { name: name@, ..views(old(list)@)[at as int] },
        ),
{
    let ghost before = list@;
    list[at].name = name;
    assert(views(list@) =~= views(before).update(
        at as int,
        PlanView { name: name@, ..views(before)[at as int] },
    ));
}

/// Gives the texture coordinates their final names. Returns which source unit became which, as
/// long as the numbers fit.
pub fn number_texcoords(list: &mut Vec<AttributePlan>) -> (r: Option<Vec<(u32, u32)>>)
    ensures
        match r {
            Some(units) => views(final(list)@) == all_renamed(views(old(list)@)) && units@
                == units_of(views(old(list)@)) && unit_order(
                views(old(list)@),
                old(list)@.len() as int,
            ).len() <= u32::MAX,
            None => unit_order(views(old(list)@), old(list)@.len() as int).len() > u32::MAX,
        },
{
    let ghost start = views(list@);
    let order = list_units(list);
    let ghost goal = unit_order(start, start.len() as int);
    proof {
        law_units_ascend(start, start.len() as int);
    }
    if order.len() as u64 > 0xffff_ffff {
        return None;
    }
    let mut units: Vec<(u32, u32)> = Vec::new();
    let mut k: usize = 0;
    while k < order.len()
        invariant
            k <= order@.len() <= u32::MAX,
            goal == order_view(order@),
            order_ok(goal, start.len() as int),
            list@.len() == start.len(),
            views(list@) == renamed(start, goal, k as int),
            units@ == unit_table(goal, k as int),
        decreases order@.len() - k,
    {
        let (unit, at) = order[k];
        assert(goal[k as int] == (unit, at as int));
        rename(list, at, join("TEXCOORD_", decimal(k).as_str()));
        let entry: (u32, u32) = (unit, k as u32);
        let n: usize = units.len();
        if n > 0 && units[n - 1].0 == unit {
            units.set(n - 1, entry);
        } else {
            units.push(entry);
        }
        k += 1;
    }
    Some(units)
}

/// The name of a number that belongs to an axis: the axis' letter behind a prefix.
pub open spec fn axis_named(prefix: Seq<char>, axis: int) -> Seq<char> {
    prefix.push(
        if axis == 0 {
            'x'
        } else if axis == 1 {
            'y'
        } else if axis == 2 {
            'z'
        } else {
            'w'
        },
    )
}

/// The names of the numbers of a range of positions.
proof fn lemma_position_names()
    ensures
        axis_named("vtx_bbl_"@, 0) == "vtx_bbl_x"@,
        axis_named("vtx_bbl_"@, 1) == "vtx_bbl_y"@,
        axis_named("vtx_bbl_"@, 2) == "vtx_bbl_z"@,
        axis_named("vtx_h_"@, 0) == "vtx_h_x"@,
        axis_named("vtx_h_"@, 1) == "vtx_h_y"@,
        axis_named("vtx_h_"@, 2) == "vtx_h_z"@,
        forall|i: int, j: int|
            0 <= i < 3 && 0 <= j < 3 ==> #[trigger] axis_named("vtx_bbl_"@, i)
                != #[trigger] axis_named("vtx_h_"@, j),
        forall|i: int, j: int|
            0 <= i < j < 3 ==> #[trigger] axis_named("vtx_bbl_"@, i) != #[trigger] axis_named(
                "vtx_bbl_"@,
                j,
            ),
        forall|i: int, j: int|
            0 <= i < j < 3 ==> #[trigger] axis_named("vtx_h_"@, i) != #[trigger] axis_named(
                "vtx_h_"@,
                j,
            ),
{
    reveal_strlit("vtx_bbl_");
    reveal_strlit("vtx_h_");
    reveal_strlit("vtx_bbl_x");
    reveal_strlit("vtx_bbl_y");
    reveal_strlit("vtx_bbl_z");
    reveal_strlit("vtx_h_x");
    reveal_strlit("vtx_h_y");
    reveal_strlit("vtx_h_z");
    assert(axis_named("vtx_bbl_"@, 0) =~= "vtx_bbl_x"@);
    assert(axis_named("vtx_bbl_"@, 1) =~= "vtx_bbl_y"@);
    assert(axis_named("vtx_bbl_"@, 2) =~= "vtx_bbl_z"@);
    assert(axis_named("vtx_h_"@, 0) =~= "vtx_h_x"@);
    assert(axis_named("vtx_h_"@, 1) =~= "vtx_h_y"@);
    assert(axis_named("vtx_h_"@, 2) =~= "vtx_h_z"@);
    assert forall|i: int, j: int| 0 <= i < 3 && 0 <= j < 3 implies #[trigger] axis_named(
        "vtx_bbl_"@,
        i,
    ) != #[trigger] axis_named("vtx_h_"@, j) by {
        assert(axis_named("vtx_bbl_"@, i).len() == 9);
        assert(axis_named("vtx_h_"@, j).len() == 7);
    }
    assert forall|i: int, j: int| 0 <= i < j < 3 implies #[trigger] axis_named("vtx_bbl_"@, i)
        != #[trigger] axis_named("vtx_bbl_"@, j) by {
        assert(axis_named("vtx_bbl_"@, i)[8] != axis_named("vtx_bbl_"@, j)[8]);
    }
    assert forall|i: int, j: int| 0 <= i < j < 3 implies #[trigger] axis_named("vtx_h_"@, i)
        != #[trigger] axis_named("vtx_h_"@, j) by {
        assert(axis_named("vtx_h_"@, i)[6] != axis_named("vtx_h_"@, j)[6]);
    }
}

/// Positions are scaled if the geometry names a low corner: along each axis from the corner and by
/// the step that the axis' letter names, over three axes if there are three components, and two
/// otherwise.
pub proof fn law_positions_are_scaled_along_their_axes(
    meta: Map<Seq<char>, Figure>,
    components: int,
)
    ensures
        position_range(meta, components) is Some <==> meta.contains_key("vtx_bbl_x"@),
        position_range(meta, components) matches Some((low, step)) ==> {
            let axes = if components == 3 {
                3int
            } else {
                2int
            };
            &&& low.len() == axes
            &&& step.len() == axes
            &&& forall|i: int|
                0 <= i < axes ==> #[trigger] low[i] == single_of(meta, axis_named("vtx_bbl_"@, i))
            &&& forall|i: int|
                0 <= i < axes ==> #[trigger] step[i] == single_of(meta, axis_named("vtx_h_"@, i))
        },
{
    lemma_position_names();
}

/// A step acts on its own axis only, and so does a coordinate of the low corner.
pub proof fn law_axes_are_scaled_apart(
    meta: Map<Seq<char>, Figure>,
    components: int,
    axis: int,
    figure: Figure,
)
    requires
        meta.contains_key("vtx_bbl_x"@),
        0 <= axis < 2 || (axis == 2 && components == 3),
    ensures
        ({
            let old_range = position_range(meta, components)->0;
            position_range(meta.insert(axis_named("vtx_h_"@, axis), figure), components) == Some(
                (old_range.0, old_range.1.update(axis, figure.single)),
            ) && position_range(meta.insert(axis_named("vtx_bbl_"@, axis), figure), components)
                == Some((old_range.0.update(axis, figure.single), old_range.1))
        }),
{
    lemma_position_names();
    let (low, step) = position_range(meta, components)->0;
    let a = position_range(meta.insert(axis_named("vtx_h_"@, axis), figure), components)->0;
    let b = position_range(meta.insert(axis_named("vtx_bbl_"@, axis), figure), components)->0;
    assert(a.0 =~= low);
    assert(a.1 =~= step.update(axis, figure.single));
    assert(b.0 =~= low.update(axis, figure.single));
    assert(b.1 =~= step);
}

/// The names of the numbers of a range of texture coordinates.
proof fn lemma_uv_names(suffix: Seq<char>)
    ensures
        uv_prefix(suffix) + "bbl_x"@ == axis_named("uv_"@ + suffix + "_bbl_"@, 0),
        uv_prefix(suffix) + "bbl_y"@ == axis_named("uv_"@ + suffix + "_bbl_"@, 1),
        uv_prefix(suffix) + "h_x"@ == axis_named("uv_"@ + suffix + "_h_"@, 0),
        uv_prefix(suffix) + "h_y"@ == axis_named("uv_"@ + suffix + "_h_"@, 1),
        uv_prefix(suffix) + "mode"@ == "uv_"@ + suffix + "_mode"@,
{
    reveal_strlit("uv_");
    reveal_strlit("_");
    reveal_strlit("bbl_x");
    reveal_strlit("bbl_y");
    reveal_strlit("h_x");
    reveal_strlit("h_y");
    reveal_strlit("_bbl_");
    reveal_strlit("_h_");
    reveal_strlit("mode");
    reveal_strlit("_mode");
    assert(uv_prefix(suffix) + "bbl_x"@ =~= axis_named("uv_"@ + suffix + "_bbl_"@, 0));
    assert(uv_prefix(suffix) + "bbl_y"@ =~= axis_named("uv_"@ + suffix + "_bbl_"@, 1));
    assert(uv_prefix(suffix) + "h_x"@ =~= axis_named("uv_"@ + suffix + "_h_"@, 0));
    assert(uv_prefix(suffix) + "h_y"@ =~= axis_named("uv_"@ + suffix + "_h_"@, 1));
    assert(uv_prefix(suffix) + "mode"@ =~= "uv_"@ + suffix + "_mode"@);
}

/// Texture coordinates of a unit are scaled if the geometry names their low corner: along each of
/// two axes from the corner and by the step that the unit and the axis' letter name. Their mode is
/// the unit's own, or else that of the vertices.
pub proof fn law_texcoords_are_scaled_along_their_axes(
    meta: Map<Seq<char>, Figure>,
    suffix: Seq<char>,
)
    ensures
        uv_range(meta, suffix) is Some <==> meta.contains_key(
            axis_named("uv_"@ + suffix + "_bbl_"@, 0),
        ),
        uv_range(meta, suffix) matches Some((low, step)) ==> {
            &&& low.len() == 2
            &&& step.len() == 2
            &&& forall|i: int|
                0 <= i < 2 ==> #[trigger] low[i] == single_of(
                    meta,
                    axis_named("uv_"@ + suffix + "_bbl_"@, i),
                )
            &&& forall|i: int|
                0 <= i < 2 ==> #[trigger] step[i] == single_of(
                    meta,
                    axis_named("uv_"@ + suffix + "_h_"@, i),
                )
        },
        meta.contains_key("uv_"@ + suffix + "_mode"@) ==> uv_mode(meta, suffix) == flags_of(
            meta,
            "uv_"@ + suffix + "_mode"@,
        ),
        !meta.contains_key("uv_"@ + suffix + "_mode"@) ==> uv_mode(meta, suffix) == flags_of(
            meta,
            "vertex_mode"@,
        ),
{
    lemma_uv_names(suffix);
}

/// Directions are stored with a resolution of at least a quarter and 720 steps: the geometry's own
/// numbers where they are larger.
pub proof fn law_directions_have_a_resolution(meta: Map<Seq<char>, Figure>)
    ensures
        resolution(meta) matches DecodingView::Normals { epsilon, nphi } && {
            &&& !lt_of(epsilon, 0x3e80_0000)
            &&& !lt_of(nphi, 0x4434_0000)
            &&& lt_of(0x3e80_0000, single_of(meta, "epsilon"@)) ==> epsilon == single_of(
                meta,
                "epsilon"@,
            )
            &&& lt_of(0x4434_0000, single_of(meta, "nphi"@)) ==> nphi == single_of(meta, "nphi"@)
            &&& lt_of(single_of(meta, "epsilon"@), 0x3e80_0000) ==> epsilon == 0x3e80_0000
            &&& lt_of(single_of(meta, "nphi"@), 0x4434_0000) ==> nphi == 0x4434_0000
        },
{
}

/// Vertices become positions of floating-point numbers, scaled by the range that the geometry
/// names, and predicted along the strip where its vertex mode asks for it. They are not flipped.
pub proof fn law_vertices_become_positions(
    data: Components,
    item_size: int,
    count: int,
    meta: Map<Seq<char>, Figure>,
    strip: Option<Seq<u32>>,
)
    requires
        0 <= item_size <= usize::MAX,
        0 <= count <= usize::MAX,
    ensures
        planned("Vertex"@, data, item_size, count, meta, strip) matches Ok(plan) ==> {
            &&& plan matches Some(p) && {
                &&& p.name == "POSITION"@
                &&& p.attribute.data == data
                &&& p.attribute.item_size == item_size
                &&& p.attribute.count == count
                &&& p.attribute.component_type == 5126
                &&& !p.attribute.normalized
                &&& p.decoding matches DecodingView::Floats { predict, range, flip } && {
                    &&& predict is Some <==> flags_of(meta, "vertex_mode"@) & 2 != 0 && strip is Some
                    &&& range == position_range(meta, item_size)
                    &&& !flip
                }
            }
        },
{
}

/// Encoded normals and tangents become directions of three and four components, with the geometry's
/// resolution. Those that are not encoded are left out.
pub proof fn law_normals_and_tangents_are_decoded(
    data: Components,
    item_size: int,
    count: int,
    meta: Map<Seq<char>, Figure>,
    strip: Option<Seq<u32>>,
)
    requires
        0 <= count <= usize::MAX,
    ensures
        ({
            let normals = planned("Normal"@, data, item_size, count, meta, strip);
            let tangents = planned("Tangent"@, data, item_size, count, meta, strip);
            let encoded = flags_of(meta, "attributes"@);
            &&& encoded & 2 == 0 ==> normals == Ok::<Option<PlanView>, BufferError>(None)
            &&& encoded & 32 == 0 ==> tangents == Ok::<Option<PlanView>, BufferError>(None)
            &&& encoded & 2 != 0 ==> (normals matches Ok(Some(p)) && p.name == "NORMAL"@
                && p.attribute.data == data && p.attribute.item_size == 3 && p.attribute.count
                == count && p.attribute.component_type == 5126 && p.decoding == resolution(meta))
            &&& encoded & 32 != 0 ==> (tangents matches Ok(Some(p)) && p.name == "TANGENT"@
                && p.attribute.data == data && p.attribute.item_size == 4 && p.attribute.count
                == count && p.attribute.component_type == 5126 && p.decoding == resolution(meta))
        }),
{
    lemma_source_names();
}

/// The names of a geometry's attributes differ.
proof fn lemma_source_names()
    ensures
        "Normal"@ != "Vertex"@,
        "Tangent"@ != "Vertex"@,
        "Tangent"@ != "Normal"@,
        "Color"@ != "Vertex"@,
        "Color"@ != "Normal"@,
        "Color"@ != "Tangent"@,
        !starts_of("Normal"@, "TexCoord"@),
        !starts_of("Tangent"@, "TexCoord"@),
        !starts_of("Color"@, "TexCoord"@),
        "TexCoord"@.len() == 8,
        "TexCoord"@[0] == 'T',
        "TexCoord"@[1] == 'e',
        "Vertex"@.len() == 6,
        "Normal"@.len() == 6,
        "Tangent"@.len() == 7,
{
    reveal_strlit("Vertex");
    reveal_strlit("Normal");
    reveal_strlit("Tangent");
    reveal_strlit("Color");
    reveal_strlit("TexCoord");
    assert("Normal"@[0] == 'N' && "Vertex"@[0] == 'V' && "Tangent"@[0] == 'T' && "Color"@[0] == 'C');
    assert("Normal"@.len() == 6 && "Tangent"@.len() == 7 && "Color"@.len() == 5);
}

/// Colors are kept under a name of the library's own: bytes as shares of 255, anything else as
/// floating-point numbers.
pub proof fn law_colors_are_kept(
    data: Components,
    item_size: int,
    count: int,
    meta: Map<Seq<char>, Figure>,
    strip: Option<Seq<u32>>,
)
    requires
        0 <= item_size <= usize::MAX,
        0 <= count <= usize::MAX,
    ensures
        planned("Color"@, data, item_size, count, meta, strip) matches Ok(Some(p)) && {
            &&& p.name == "_SKETCHFAB_COLOR_0"@
            &&& p.attribute.data == data
            &&& p.attribute.item_size == item_size
            &&& p.attribute.count == count
            &&& data is U8 ==> p.attribute.component_type == 5121 && p.attribute.normalized
                && p.decoding is Keep
            &&& !(data is U8) ==> p.attribute.component_type == 5126 && !p.attribute.normalized && (
            p.decoding matches DecodingView::Floats { predict, range, flip } && predict is None
                && range is None && !flip)
        },
{
    lemma_source_names();
}

/// A digit is a digit.
proof fn lemma_digits(n: nat)
    ensures
        decimal_of(n).len() > 0,
        '0' <= decimal_of(n)[0] <= '9',
        digits_value(decimal_of(n)) == Some(n),
    decreases n,
{
    let s = decimal_of(n);
    reveal_with_fuel(digits_value, 2);
    if n < 10 {
        assert(s.drop_last() =~= Seq::<char>::empty());
        assert(s.last() == digit_of(n as int));
    } else {
        lemma_digits(n / 10);
        assert(s.drop_last() =~= decimal_of(n / 10));
        assert(s.last() == digit_of((n % 10) as int));
        assert(s[0] == decimal_of(n / 10)[0]);
    }
}

/// A prefix is trimmed off a number.
proof fn lemma_trimmed_number(prefix: Seq<char>, n: nat)
    requires
        prefix.len() > 0,
        !('0' <= prefix[0] <= '9'),
    ensures
        trimmed_start_of(prefix + decimal_of(n), prefix) == decimal_of(n),
        starts_of(prefix + decimal_of(n), prefix),
{
    reveal_with_fuel(trimmed_start_of, 3);
    lemma_digits(n);
    let s = prefix + decimal_of(n);
    assert(s.subrange(0, prefix.len() as int) =~= prefix);
    assert(s.skip(prefix.len() as int) =~= decimal_of(n));
    let d = decimal_of(n);
    assert(!occurs_at(d, prefix, 0)) by {
        if occurs_at(d, prefix, 0) {
            assert(d.subrange(0, prefix.len() as int)[0] == prefix[0]);
        }
    }
}

/// The texture coordinates of a unit become floating-point numbers, at least two for each vertex,
/// flipped, scaled by the unit's range, and predicted where the unit's mode asks for it; and they
/// are remembered under the unit's number.
pub proof fn law_texcoords_belong_to_their_unit(
    unit: u32,
    data: Components,
    item_size: int,
    count: int,
    meta: Map<Seq<char>, Figure>,
    strip: Option<Seq<u32>>,
)
    requires
        0 <= item_size <= usize::MAX,
        0 <= count <= usize::MAX,
    ensures
        planned(
            "TexCoord"@ + decimal_of(unit as nat),
            data,
            item_size,
            count,
            meta,
            strip,
        ) matches Ok(plan) ==> {
            &&& plan matches Some(p) && {
                &&& unit_of(p.name) == Some(unit)
                &&& p.attribute.data == data
                &&& item_size >= 2 ==> p.attribute.item_size == item_size
                &&& item_size < 2 ==> p.attribute.item_size == 2
                &&& p.attribute.count == count
                &&& p.attribute.component_type == 5126
                &&& !p.attribute.normalized
                &&& p.decoding matches DecodingView::Floats { predict, range, flip } && {
                    &&& predict is Some <==> uv_mode(meta, decimal_of(unit as nat)) & 2 != 0
                        && strip is Some
                    &&& range == uv_range(meta, decimal_of(unit as nat))
                    &&& flip
                }
            }
        },
{
    lemma_source_names();
    let d = decimal_of(unit as nat);
    let name = "TexCoord"@ + d;
    lemma_digits(unit as nat);
    lemma_trimmed_number("TexCoord"@, unit as nat);
    assert(name.len() >= 9);
    assert("_TC_"@.len() == 4 && "_TC_"@[0] == '_') by {
        reveal_strlit("_TC_");
    }
    lemma_trimmed_number("_TC_"@, unit as nat);
}

/// The order of texture coordinates names the unit of each.
proof fn lemma_order_names_units(list: Seq<PlanView>, n: int, k: int)
    requires
        0 <= n <= list.len(),
        0 <= k < unit_order(list, n).len(),
    ensures
        0 <= unit_order(list, n)[k].1 < n,
        unit_of(list[unit_order(list, n)[k].1].name) == Some(unit_order(list, n)[k].0),
    decreases n,
{
    if n > 0 {
        let before = unit_order(list, n - 1);
        match unit_of(list[n - 1].name) {
            Some(unit) => {
                lemma_unit_place(before, unit, 0);
                let at = unit_place(before, unit, 0);
                let after = before.insert(at, (unit, n - 1));
                if k < at {
                    assert(after[k] == before[k]);
                    lemma_order_names_units(list, n - 1, k);
                } else if k > at {
                    assert(after[k] == before[k - 1]);
                    lemma_order_names_units(list, n - 1, k - 1);
                }
            },
            None => {
                lemma_order_names_units(list, n - 1, k);
            },
        }
    }
}

/// The table of units gives each unit the number of texture coordinates of that unit.
proof fn lemma_table_names_units(order: Seq<(u32, int)>, n: int, i: int)
    requires
        0 <= n <= order.len() <= u32::MAX,
        0 <= i < unit_table(order, n).len(),
    ensures
        unit_table(order, n)[i].1 < n,
        order[unit_table(order, n)[i].1 as int].0 == unit_table(order, n)[i].0,
    decreases n,
{
    if n > 0 {
        let before = unit_table(order, n - 1);
        if i < before.len() && unit_table(order, n)[i] == before[i] {
            lemma_table_names_units(order, n - 1, i);
        }
    }
}

/// A material that uses a unit finds the coordinates that were read for it: where the table gives a
/// unit the number `k`, the attribute `TEXCOORD_k` is one that was remembered under that unit, with
/// its numbers and its decoding unchanged.
pub proof fn law_table_leads_to_the_units_texcoords(list: Seq<PlanView>, i: int)
    requires
        unit_order(list, list.len() as int).len() <= u32::MAX,
        0 <= i < units_of(list).len(),
    ensures
        ({
            let (unit, number) = units_of(list)[i];
            exists|at: int|
                0 <= at < list.len() && unit_of((#[trigger] list[at]).name) == Some(unit)
                    && all_renamed(list)[at] == (PlanView {
                    name: "TEXCOORD_"@ + decimal_of(number as nat),
                    ..list[at]
                })
        }),
{
    let order = unit_order(list, list.len() as int);
    law_units_ascend(list, list.len() as int);
    let (unit, number) = units_of(list)[i];
    lemma_table_names_units(order, order.len() as int, i);
    let at = order[number as int].1;
    lemma_order_names_units(list, list.len() as int, number as int);
    law_texcoords_are_dense(list, order, order.len() as int, number as int);
    assert(unit_of(list[at].name) == Some(unit));
}

/// An attribute is read from the array that its definition names: as many components for each item
/// as `ItemSize` says, one if it does not say, and as many items as the array's `Size`; from the
/// wireframe file if the array is stored there, and otherwise from the model file. One that is
/// stored in a wireframe file that there is not is left out.
pub proof fn law_attribute_is_read_from_its_array(
    list: Seq<PlanView>,
    name: Seq<char>,
    def: Tree,
    arrays: Seq<(Seq<char>, Tree)>,
    meta: Map<Seq<char>, Figure>,
    strip: Option<Seq<u32>>,
    poly: Seq<u8>,
    wire: Option<Seq<u8>>,
)
    requires
        get_of(Some(def), "Array"@) == Some(Tree::Object(arrays)),
        arrays.len() > 0,
    ensures
        ({
            let r = attribute_added(list, name, def, meta, strip, poly, wire);
            let (array_type, array) = arrays[0];
            let per_item = unsigned_of(get_of(Some(def), "ItemSize"@));
            let items = unsigned_of(get_of(Some(array), "Size"@));
            let size = if per_item is Some {
                per_item->0 as int
            } else {
                1
            };
            let count = if items is Some {
                items->0 as int
            } else {
                0
            };
            &&& in_wireframe(array) && wire is None ==> r == Ok::<Seq<PlanView>, BufferError>(list)
            &&& size <= usize::MAX && count <= usize::MAX && (!in_wireframe(array) || wire is Some)
                ==> {
                let bin = if in_wireframe(array) {
                    wire->0
                } else {
                    poly
                };
                let data = buffer_array_of(bin, array, size, array_type);
                &&& data matches Err(e) ==> r == Err::<Seq<PlanView>, BufferError>(e)
                &&& data matches Ok(c) ==> match planned(name, c, size, count, meta, strip) {
                    Err(e) => r == Err::<Seq<PlanView>, BufferError>(e),
                    Ok(None) => r == Ok::<Seq<PlanView>, BufferError>(list),
                    Ok(Some(p)) => r matches Ok(after) && after.contains(p) && forall|q: PlanView|
                        q.name != p.name ==> (list.contains(q) <==> #[trigger] after.contains(q)),
                }
            }
        }),
{
    let r = attribute_added(list, name, def, meta, strip, poly, wire);
    let (array_type, array) = arrays[0];
    let size = size_of(unsigned_of(get_of(Some(def), "ItemSize"@)), 1);
    let count = size_of(unsigned_of(get_of(Some(array), "Size"@)), 0);
    if size <= usize::MAX && count <= usize::MAX && (!in_wireframe(array) || wire is Some) {
        let bin = if in_wireframe(array) {
            wire->0
        } else {
            poly
        };
        match buffer_array_of(bin, array, size, array_type) {
            Ok(c) => match planned(name, c, size, count, meta, strip) {
                Ok(Some(p)) => {
                    lemma_with_plan_holds(list, p);
                },
                _ => {},
            },
            Err(_) => {},
        }
    }
}

/// A list with one more plan holds it, and of other names what it held.
proof fn lemma_with_plan_holds(list: Seq<PlanView>, plan: PlanView)
    ensures
        with_plan(list, plan).contains(plan),
        forall|q: PlanView|
            q.name != plan.name ==> (list.contains(q) <==> #[trigger] with_plan(
                list,
                plan,
            ).contains(q)),
{
    lemma_plan_index(list, plan.name, 0);
    let after = with_plan(list, plan);
    match plan_index(list, plan.name, 0) {
        Some(i) => {
            assert(after[i] == plan);
            assert forall|q: PlanView| q.name != plan.name implies (list.contains(q)
                <==> #[trigger] after.contains(q)) by {
                if list.contains(q) {
                    let k = choose|k: int| 0 <= k < list.len() && list[k] == q;
                    assert(after[k] == q);
                }
                if after.contains(q) {
                    let k = choose|k: int| 0 <= k < after.len() && after[k] == q;
                    assert(list[k] == q);
                }
            }
        },
        None => {
            assert(after[list.len() as int] == plan);
            assert forall|q: PlanView| q.name != plan.name implies (list.contains(q)
                <==> #[trigger] after.contains(q)) by {
                if list.contains(q) {
                    let k = choose|k: int| 0 <= k < list.len() && list[k] == q;
                    assert(after[k] == q);
                }
                if after.contains(q) {
                    let k = choose|k: int| 0 <= k < after.len() && after[k] == q;
                    assert(k < list.len());
                    assert(list[k] == q);
                }
            }
        },
    }
}

} // verus!
