//! Parts and faces of an assembly, read from the records of a STEP text.

use std::collections::HashMap;
use vstd::prelude::*;
use vstd::string::StringSliceAdditionalSpecFns;
use vstd::utf8::encode_utf8;
use crate::decimal::direction_in;
use crate::decimal::lemma_direction_in_range;
use crate::decimal::lemma_point_in_range;
use crate::geometry::lemma_cross_in_range;
use crate::decimal::parse_cartesian_point;
pub use crate::decimal::parse_direction;
use crate::decimal::parse_trailing_number;
use crate::decimal::point_of;
use crate::decimal::trailing_number;
use crate::fixed::LENGTH_MAX;
use crate::fixed::SCALE;
use crate::geometry::cross;
use crate::geometry::cross_exact;
use crate::geometry::cross_spec;
use crate::fixed::round_div;
use crate::fixed::lemma_round_div_is_exact;
use crate::geometry::identity_matrix;
use crate::geometry::identity_spec;
use crate::geometry::within;
use crate::geometry::AXIS_MAX;
use crate::geometry::placement_in_range;
use crate::geometry::check_placement;
use crate::step_entities::EntityIndex;
use crate::step_entities::EntityRecord;
use crate::step_entities::extract_quoted_name;
use crate::step_entities::is_current;
use crate::step_entities::last_position;
use crate::step_entities::lemma_last_position;
use crate::step_entities::parse_refs;
use crate::step_entities::quoted_name;
use crate::step_entities::record_with_id;
use crate::step_entities::refs_of;
use crate::text::contains_word;
use crate::text::signed_decimal;
use crate::text::has_word;
use crate::text::occurs_at;
use crate::text::push_bytes;
use crate::text::push_signed_decimal;
use crate::text::same_bytes;
use crate::text::word_at;
use crate::text::copy_range;
use crate::step_entities::parse_step_entities;
use crate::step_entities::records_of;

verus! {

broadcast use vstd::std_specs::hash::group_hash_axioms;

/// The kind of surface that a face lies on.
#[derive(Clone, Copy, Debug, PartialEq, Eq, Structural)]
pub enum FaceType {
    Planar,
    Cylindrical,
    Conical,
    Spherical,
    Toroidal,
    Freeform,
}

impl FaceType {
    /// The type that a name in lower case stands for; `Freeform` for every
    /// name that stands for none.
    pub fn from_name(name: &str) -> (t: FaceType)
        ensures
            t == (if name@ == "planar"@ {
                FaceType::Planar
            } else if name@ == "cylindrical"@ {
                FaceType::Cylindrical
            } else if name@ == "conical"@ {
                FaceType::Conical
            } else if name@ == "spherical"@ {
                FaceType::Spherical
            } else if name@ == "toroidal"@ {
                FaceType::Toroidal
            } else {
                FaceType::Freeform
            }),
    {
        let owned = name.to_owned();
        if owned == "planar".to_owned() {
            FaceType::Planar
        } else if owned == "cylindrical".to_owned() {
            FaceType::Cylindrical
        } else if owned == "conical".to_owned() {
            FaceType::Conical
        } else if owned == "spherical".to_owned() {
            FaceType::Spherical
        } else if owned == "toroidal".to_owned() {
            FaceType::Toroidal
        } else {
            FaceType::Freeform
        }
    }

    /// The name of the type in lower case.
    pub fn name(&self) -> (s: String)
        ensures
            s@ == (match *self {
                FaceType::Planar => "planar"@,
                FaceType::Cylindrical => "cylindrical"@,
                FaceType::Conical => "conical"@,
                FaceType::Spherical => "spherical"@,
                FaceType::Toroidal => "toroidal"@,
                FaceType::Freeform => "freeform"@,
            }),
    {
        match self {
            FaceType::Planar => "planar".to_owned(),
            FaceType::Cylindrical => "cylindrical".to_owned(),
            FaceType::Conical => "conical".to_owned(),
            FaceType::Spherical => "spherical".to_owned(),
            FaceType::Toroidal => "toroidal".to_owned(),
            FaceType::Freeform => "freeform".to_owned(),
        }
    }
}

/// The face type that the kind of a surface record stands for; none for a
/// record that is no surface.
pub open spec fn surface_type(kind: Seq<u8>) -> Option<FaceType> {
    if kind == "PLANE".spec_bytes() {
        Some(FaceType::Planar)
    } else if kind == "CYLINDRICAL_SURFACE".spec_bytes() {
        Some(FaceType::Cylindrical)
    } else if kind == "CONICAL_SURFACE".spec_bytes() {
        Some(FaceType::Conical)
    } else if kind == "SPHERICAL_SURFACE".spec_bytes() {
        Some(FaceType::Spherical)
    } else if kind == "TOROIDAL_SURFACE".spec_bytes() {
        Some(FaceType::Toroidal)
    } else if occurs_at(kind, "B_SPLINE_SURFACE".spec_bytes(), 0) {
        Some(FaceType::Freeform)
    } else {
        None
    }
}

/// The face type that the kind of a surface record stands for.
pub fn classify_surface(kind: &[u8]) -> (t: Option<FaceType>)
    ensures
        t == surface_type(kind@),
{
    if same_bytes(kind, "PLANE".as_bytes()) {
        Some(FaceType::Planar)
    } else if same_bytes(kind, "CYLINDRICAL_SURFACE".as_bytes()) {
        Some(FaceType::Cylindrical)
    } else if same_bytes(kind, "CONICAL_SURFACE".as_bytes()) {
        Some(FaceType::Conical)
    } else if same_bytes(kind, "SPHERICAL_SURFACE".as_bytes()) {
        Some(FaceType::Spherical)
    } else if same_bytes(kind, "TOROIDAL_SURFACE".as_bytes()) {
        Some(FaceType::Toroidal)
    } else if word_at(kind, "B_SPLINE_SURFACE".as_bytes(), 0) {
        Some(FaceType::Freeform)
    } else {
        None
    }
}

/// A part that the text names: the number of its record and its name.
#[derive(Debug)]
pub struct ProductDefinition {
    pub id: i64,
    pub name: Vec<u8>,
}

/// What a product definition holds.
pub struct ProductRecord {
    pub id: i64,
    pub name: Seq<u8>,
}

impl View for ProductDefinition {
    type V = ProductRecord;

    open spec fn view(&self) -> ProductRecord {
        ProductRecord { id: self.id, name: self.name@ }
    }
}

/// The name that the references lead to. The first reference to a record of
/// the kind PRODUCT gives the first quoted text of that record; the first to
/// a PRODUCT_DEFINITION_FORMATION is followed into that record, `depth` times
/// at most. References to other records are passed over.
pub open spec fn resolved_name(records: Seq<EntityRecord>, refs: Seq<i64>, depth: nat) -> Option<
    Seq<u8>,
>
    decreases depth, refs.len(),
{
    if refs.len() == 0 {
        None
    } else {
        match record_with_id(records, refs[0]) {
            Some(e) => if e.kind == "PRODUCT_DEFINITION_FORMATION".spec_bytes() {
                if depth > 0 {
                    resolved_name(records, refs_of(e.data), (depth - 1) as nat)
                } else {
                    None
                }
            } else if e.kind == "PRODUCT".spec_bytes() {
                quoted_name(e.data)
            } else {
                resolved_name(records, refs.drop_first(), depth)
            },
            None => resolved_name(records, refs.drop_first(), depth),
        }
    }
}

/// The name of the product that a payload leads to, over two hops at most.
pub open spec fn product_name(records: Seq<EntityRecord>, data: Seq<u8>) -> Option<Seq<u8>> {
    resolved_name(records, refs_of(data), 1)
}

/// The name of the product that a payload leads to, over `depth` hops through
/// formations at most.
pub fn extract_product_name(entities: &EntityIndex, data: &[u8], depth: usize) -> (name: Option<
    Vec<u8>,
>)
    ensures
        match resolved_name(entities.records(), refs_of(data@), depth as nat) {
            Some(text) => name matches Some(v) && v@ == text,
            None => name is None,
        },
    decreases depth,
{
    let refs = parse_refs(data);
    let mut i: usize = 0;
    assert(refs@.skip(0) =~= refs@);
    while i < refs.len()
        invariant
            i <= refs@.len(),
            refs@ == refs_of(data@),
            resolved_name(entities.records(), refs@, depth as nat) == resolved_name(
                entities.records(),
                refs@.skip(i as int),
                depth as nat,
            ),
        decreases refs@.len() - i,
    {
        proof {
            assert(refs@.skip(i as int)[0] == refs@[i as int]);
            assert(refs@.skip(i as int).drop_first() =~= refs@.skip(i + 1));
        }
        match entities.get(refs[i]) {
            Some(e) => {
                if same_bytes(e.entity_type.as_slice(), "PRODUCT_DEFINITION_FORMATION".as_bytes()) {
                    if depth > 0 {
                        return extract_product_name(entities, e.data.as_slice(), depth - 1);
                    } else {
                        return None;
                    }
                } else if same_bytes(e.entity_type.as_slice(), "PRODUCT".as_bytes()) {
                    return extract_quoted_name(e.data.as_slice());
                }
            },
            None => {},
        }
        i = i + 1;
    }
    assert(refs@.skip(refs@.len() as int).len() == 0);
    None
}

/// A word followed by a number in decimal.
pub open spec fn numbered(word: Seq<u8>, number: int) -> Seq<u8> {
    word + signed_decimal(number)
}

/// A word followed by a number in decimal.
pub fn numbered_name(word: &[u8], number: i64) -> (name: Vec<u8>)
    ensures
        name@ == numbered(word@, number as int),
{
    let mut name: Vec<u8> = Vec::new();
    push_bytes(&mut name, word);
    push_signed_decimal(&mut name, number);
    assert(name@ =~= word@ + signed_decimal(number as int));
    name
}

/// A word followed by a count in decimal.
pub fn numbered_count(word: &[u8], count: u128) -> (name: Vec<u8>)
    ensures
        name@ == numbered(word@, count as int),
{
    let mut name: Vec<u8> = Vec::new();
    push_bytes(&mut name, word);
    crate::text::push_decimal(&mut name, count);
    assert(name@ =~= word@ + signed_decimal(count as int));
    name
}

/// The part that a PRODUCT_DEFINITION record stands for: named after its
/// product, or `Part_` and its number where no product is found.
pub open spec fn definition_of(records: Seq<EntityRecord>, e: EntityRecord) -> ProductRecord {
    ProductRecord {
        id: e.id,
        name: match product_name(records, e.data) {
            Some(name) => name,
            None => numbered("Part_".spec_bytes(), e.id as int),
        },
    }
}

/// The part that a MANIFOLD_SOLID_BREP record stands for: named by its first
/// quoted text, or `Solid_` and its number where it has none.
pub open spec fn solid_of(e: EntityRecord) -> ProductRecord {
    ProductRecord {
        id: e.id,
        name: match quoted_name(e.data) {
            Some(name) => name,
            None => numbered("Solid_".spec_bytes(), e.id as int),
        },
    }
}

/// The parts among the first `n` records that PRODUCT_DEFINITION records
/// stand for, in the order of the text.
pub open spec fn definitions_upto(records: Seq<EntityRecord>, n: int) -> Seq<ProductRecord>
    decreases n,
{
    if n <= 0 {
        Seq::empty()
    } else if is_current(records, n - 1) && records[n - 1].kind
        == "PRODUCT_DEFINITION".spec_bytes() {
        definitions_upto(records, n - 1).push(definition_of(records, records[n - 1]))
    } else {
        definitions_upto(records, n - 1)
    }
}

/// The parts among the first `n` records that MANIFOLD_SOLID_BREP records
/// stand for, in the order of the text.
pub open spec fn solids_upto(records: Seq<EntityRecord>, n: int) -> Seq<ProductRecord>
    decreases n,
{
    if n <= 0 {
        Seq::empty()
    } else if is_current(records, n - 1) && records[n - 1].kind
        == "MANIFOLD_SOLID_BREP".spec_bytes() {
        solids_upto(records, n - 1).push(solid_of(records[n - 1]))
    } else {
        solids_upto(records, n - 1)
    }
}

/// The parts of the text: one for every PRODUCT_DEFINITION record; where
/// there is none, one for every MANIFOLD_SOLID_BREP record.
pub open spec fn products_of(records: Seq<EntityRecord>) -> Seq<ProductRecord> {
    if definitions_upto(records, records.len() as int).len() > 0 {
        definitions_upto(records, records.len() as int)
    } else {
        solids_upto(records, records.len() as int)
    }
}

/// The views of the product definitions, in their order.
pub open spec fn product_views(products: Seq<ProductDefinition>) -> Seq<ProductRecord> {
    Seq::new(products.len(), |k: int| products[k]@)
}

/// The parts of the text with their names.
pub fn extract_product_definitions(entities: &EntityIndex) -> (products: Vec<ProductDefinition>)
    ensures
        product_views(products@) == products_of(entities.records()),
        products@.len() <= i64::MAX,
{
    let ghost records = entities.records();
    let mut products: Vec<ProductDefinition> = Vec::new();
    let n = entities.len();
    let mut j: usize = 0;
    while j < n
        invariant
            j <= n,
            n == records.len(),
            records == entities.records(),
            product_views(products@) == definitions_upto(records, j as int),
            products@.len() <= j,
            n <= i64::MAX,
        decreases n - j,
    {
        let e = entities.entity(j);
        if entities.is_current(j) && same_bytes(
            e.entity_type.as_slice(),
            "PRODUCT_DEFINITION".as_bytes(),
        ) {
            let name = match extract_product_name(entities, e.data.as_slice(), 1) {
                Some(name) => name,
                None => numbered_name("Part_".as_bytes(), e.id),
            };
            let ghost before = product_views(products@);
            let ghost old_products = products@;
            products.push(ProductDefinition { id: e.id, name });
            assert forall|k: int| 0 <= k < old_products.len() implies product_views(products@)[k]
                == before[k] by {
                assert(products@[k] == old_products[k]);
            }
            assert(product_views(products@)[old_products.len() as int] == definition_of(
                records,
                records[j as int],
            ));
            assert(product_views(products@) =~= before.push(
                definition_of(records, records[j as int]),
            ));
        }
        j = j + 1;
    }
    if products.len() > 0 {
        return products;
    }
    let mut k: usize = 0;
    while k < n
        invariant
            k <= n,
            n == records.len(),
            records == entities.records(),
            definitions_upto(records, n as int).len() == 0,
            product_views(products@) == solids_upto(records, k as int),
            products@.len() <= k,
            n <= i64::MAX,
        decreases n - k,
    {
        let e = entities.entity(k);
        if entities.is_current(k) && same_bytes(
            e.entity_type.as_slice(),
            "MANIFOLD_SOLID_BREP".as_bytes(),
        ) {
            let name = match extract_quoted_name(e.data.as_slice()) {
                Some(name) => name,
                None => numbered_name("Solid_".as_bytes(), e.id),
            };
            let ghost before = product_views(products@);
            let ghost old_products = products@;
            products.push(ProductDefinition { id: e.id, name });
            assert forall|i: int| 0 <= i < old_products.len() implies product_views(products@)[i]
                == before[i] by {
                assert(products@[i] == old_products[i]);
            }
            assert(product_views(products@)[old_products.len() as int] == solid_of(
                records[k as int],
            ));
            assert(product_views(products@) =~= before.push(solid_of(records[k as int])));
        }
        k = k + 1;
    }
    products
}

/// The record that reference `k` of `refs` names.
pub open spec fn ref_record(records: Seq<EntityRecord>, refs: Seq<i64>, k: int) -> Option<
    EntityRecord,
> {
    if 0 <= k < refs.len() {
        record_with_id(records, refs[k])
    } else {
        None
    }
}

/// The point that the record of reference `k` writes.
pub open spec fn ref_point(records: Seq<EntityRecord>, refs: Seq<i64>, k: int) -> Option<[i64; 3]> {
    match ref_record(records, refs, k) {
        Some(e) => point_of(e.data),
        None => None,
    }
}

/// The direction that the record of reference `k` writes, with length one.
pub open spec fn ref_direction(records: Seq<EntityRecord>, refs: Seq<i64>, k: int) -> Option<
    [i64; 3],
> {
    match ref_record(records, refs, k) {
        Some(e) => direction_in(e.data),
        None => None,
    }
}

fn point_at_ref(entities: &EntityIndex, refs: &Vec<i64>, k: usize) -> (r: Option<[i64; 3]>)
    ensures
        r == ref_point(entities.records(), refs@, k as int),
        r matches Some(p) ==> within(p, LENGTH_MAX as int),
{
    if k >= refs.len() {
        return None;
    }
    match entities.get(refs[k]) {
        Some(e) => parse_cartesian_point(e.data.as_slice()),
        None => None,
    }
}

fn direction_at_ref(entities: &EntityIndex, refs: &Vec<i64>, k: usize) -> (r: Option<[i64; 3]>)
    ensures
        r == ref_direction(entities.records(), refs@, k as int),
        r matches Some(d) ==> within(d, SCALE as int),
{
    if k >= refs.len() {
        return None;
    }
    match entities.get(refs[k]) {
        Some(e) => parse_direction(e.data.as_slice()),
        None => None,
    }
}

/// The placement that the payload of an AXIS2_PLACEMENT_3D record describes.
/// Its first three references name the origin, the Z axis and the X axis; a
/// missing one stands for the zero point, for plus Z and for plus X. The Y
/// axis is the vector product of Z and X. A payload without references gives
/// the placement that moves nothing.
pub open spec fn axis_placement(records: Seq<EntityRecord>, data: Seq<u8>) -> [i64; 16] {
    let refs = refs_of(data);
    if refs.len() == 0 {
        identity_spec()
    } else {
        let origin = match ref_point(records, refs, 0) {
            Some(p) => p,
            None => [0, 0, 0],
        };
        let z = match ref_direction(records, refs, 1) {
            Some(d) => d,
            None => [0, 0, SCALE],
        };
        let x = match ref_direction(records, refs, 2) {
            Some(d) => d,
            None => [SCALE, 0, 0],
        };
        let y = cross_spec(z, x);
        [
            x[0],
            x[1],
            x[2],
            0,
            y[0],
            y[1],
            y[2],
            0,
            z[0],
            z[1],
            z[2],
            0,
            origin[0],
            origin[1],
            origin[2],
            SCALE,
        ]
    }
}

/// In every placement the Y axis is the vector product of the Z axis and the
/// X axis, each coordinate rounded to a millionth, and the last row is zero
/// but for the one at its end.
pub proof fn lemma_placement_axes(records: Seq<EntityRecord>, data: Seq<u8>)
    ensures
        ({
            let m = axis_placement(records, data);
            &&& [m[4], m[5], m[6]] == cross_spec([m[8], m[9], m[10]], [m[0], m[1], m[2]])
            &&& m[3] == 0 && m[7] == 0 && m[11] == 0 && m[15] == SCALE
        }),
{
    let m = axis_placement(records, data);
    let refs = refs_of(data);
    if refs.len() == 0 {
        let z: [i64; 3] = [m[8], m[9], m[10]];
        let x: [i64; 3] = [m[0], m[1], m[2]];
        let c = cross_exact(z, x);
        assert(m == identity_spec());
        assert(z[0] == 0 && z[1] == 0 && z[2] == SCALE);
        assert(x[0] == SCALE && x[1] == 0 && x[2] == 0);
        assert(c.0 == 0 && c.2 == 0 && c.1 == SCALE * SCALE) by (nonlinear_arith)
            requires
                c.0 == z[1] * x[2] - z[2] * x[1],
                c.1 == z[2] * x[0] - z[0] * x[2],
                c.2 == z[0] * x[1] - z[1] * x[0],
                z[0] == 0 && z[1] == 0 && z[2] == SCALE,
                x[0] == SCALE && x[1] == 0 && x[2] == 0,
        ;
        assert(round_div(SCALE * SCALE, SCALE as int) == SCALE) by {
            assert(SCALE * SCALE == 1_000_000_000_000) by (nonlinear_arith)
                requires
                    SCALE == 1_000_000,
            ;
            lemma_round_div_is_exact(1_000_000, 1_000_000);
        }
        assert(round_div(0, SCALE as int) == 0);
        let y = cross_spec(z, x);
        assert(y[0] == 0 && y[1] == SCALE && y[2] == 0);
    } else {
        let z: [i64; 3] = match ref_direction(records, refs, 1) {
            Some(d) => d,
            None => [0, 0, SCALE],
        };
        let x: [i64; 3] = match ref_direction(records, refs, 2) {
            Some(d) => d,
            None => [SCALE, 0, 0],
        };
        let zz: [i64; 3] = [m[8], m[9], m[10]];
        let xx: [i64; 3] = [m[0], m[1], m[2]];
        assert(zz == z);
        assert(xx == x);
        let y = cross_spec(z, x);
        assert(m[4] == y[0] && m[5] == y[1] && m[6] == y[2]);
    }
}

/// The placement that the payload of an AXIS2_PLACEMENT_3D record describes.
pub fn parse_axis_placement(entities: &EntityIndex, data: &[u8]) -> (r: Option<[i64; 16]>)
    ensures
        r == Some(axis_placement(entities.records(), data@)),
{
    let refs = parse_refs(data);
    if refs.len() == 0 {
        return Some(identity_matrix());
    }
    let origin: [i64; 3] = match point_at_ref(entities, &refs, 0) {
        Some(p) => p,
        None => [0, 0, 0],
    };
    let z: [i64; 3] = match direction_at_ref(entities, &refs, 1) {
        Some(d) => d,
        None => [0, 0, SCALE],
    };
    let x: [i64; 3] = match direction_at_ref(entities, &refs, 2) {
        Some(d) => d,
        None => [SCALE, 0, 0],
    };
    let y = cross(&z, &x);
    Some(
        [
            x[0],
            x[1],
            x[2],
            0,
            y[0],
            y[1],
            y[2],
            0,
            z[0],
            z[1],
            z[2],
            0,
            origin[0],
            origin[1],
            origin[2],
            SCALE,
        ],
    )
}

/// The placement that the record with the number `id` describes, where that
/// record is an AXIS2_PLACEMENT_3D.
pub open spec fn placement_of(records: Seq<EntityRecord>, id: i64) -> Option<[i64; 16]> {
    match record_with_id(records, id) {
        Some(e) => if e.kind == "AXIS2_PLACEMENT_3D".spec_bytes() {
            Some(axis_placement(records, e.data))
        } else {
            None
        },
        None => None,
    }
}

/// Every placement of the text is within what the arithmetic can hold.
pub proof fn lemma_placement_in_range(records: Seq<EntityRecord>, data: Seq<u8>)
    ensures
        placement_in_range(axis_placement(records, data)),
{
    let refs = refs_of(data);
    if refs.len() > 0 {
        let origin: [i64; 3] = match ref_point(records, refs, 0) {
            Some(p) => p,
            None => [0, 0, 0],
        };
        let z: [i64; 3] = match ref_direction(records, refs, 1) {
            Some(d) => d,
            None => [0, 0, SCALE],
        };
        let x: [i64; 3] = match ref_direction(records, refs, 2) {
            Some(d) => d,
            None => [SCALE, 0, 0],
        };
        match ref_record(records, refs, 0) {
            Some(r) => {
                lemma_point_in_range(r.data);
            },
            None => {},
        }
        match ref_record(records, refs, 1) {
            Some(r) => {
                lemma_direction_in_range(r.data);
            },
            None => {},
        }
        match ref_record(records, refs, 2) {
            Some(r) => {
                lemma_direction_in_range(r.data);
            },
            None => {},
        }
        lemma_cross_in_range(z, x);
        assert(within(origin, LENGTH_MAX as int));
        assert(within(z, SCALE as int));
        assert(within(x, SCALE as int));
    }
}

/// The placements of the text by the numbers of their records: one for
/// every AXIS2_PLACEMENT_3D record.
pub fn extract_transforms(entities: &EntityIndex) -> (transforms: HashMap<i64, [i64; 16]>)
    ensures
        forall|id: i64|
            match #[trigger] placement_of(entities.records(), id) {
                Some(m) => transforms@.contains_key(id) && transforms@[id] == m,
                None => !transforms@.contains_key(id),
            },
{
    let ghost records = entities.records();
    let mut transforms: HashMap<i64, [i64; 16]> = HashMap::new();
    let n = entities.len();
    let mut j: usize = 0;
    while j < n
        invariant
            j <= n,
            n == records.len(),
            records == entities.records(),
            forall|id: i64|
                match #[trigger] last_position(records, id) {
                    Some(p) => if 0 <= p < j && records[p].kind
                        == "AXIS2_PLACEMENT_3D".spec_bytes() {
                        transforms@.contains_key(id) && transforms@[id] == axis_placement(
                            records,
                            records[p].data,
                        )
                    } else {
                        !transforms@.contains_key(id)
                    },
                    None => !transforms@.contains_key(id),
                },
        decreases n - j,
    {
        let e = entities.entity(j);
        let ghost before = transforms@;
        if entities.is_current(j) && same_bytes(
            e.entity_type.as_slice(),
            "AXIS2_PLACEMENT_3D".as_bytes(),
        ) {
            match parse_axis_placement(entities, e.data.as_slice()) {
                Some(m) => {
                    transforms.insert(e.id, m);
                },
                None => {},
            }
        }
        proof {
            assert forall|id: i64|
                match #[trigger] last_position(records, id) {
                    Some(p) => if 0 <= p < j + 1 && records[p].kind
                        == "AXIS2_PLACEMENT_3D".spec_bytes() {
                        transforms@.contains_key(id) && transforms@[id] == axis_placement(
                            records,
                            records[p].data,
                        )
                    } else {
                        !transforms@.contains_key(id)
                    },
                    None => !transforms@.contains_key(id),
                } by {
                lemma_last_position(records, id);
                lemma_last_position(records, records[j as int].id);
            }
        }
        j = j + 1;
    }
    proof {
        assert forall|id: i64|
            match #[trigger] placement_of(records, id) {
                Some(m) => transforms@.contains_key(id) && transforms@[id] == m,
                None => !transforms@.contains_key(id),
            } by {
            lemma_last_position(records, id);
        }
    }
    transforms
}

/// A face of a part.
#[derive(Clone, Copy, Debug)]
pub struct ParsedFace {
    /// Place of the face among the faces of its part.
    pub id: i64,
    pub face_type: FaceType,
    pub normal: [i64; 3],
    pub center: [i64; 3],
    pub area: i64,
    pub radius: Option<i64>,
    pub axis: Option<[i64; 3]>,
    pub step_entity_id: Option<i64>,
}

impl ParsedFace {
    /// The magnitudes are within what the arithmetic can hold.
    pub open spec fn in_range(&self) -> bool {
        &&& within(self.center, LENGTH_MAX as int)
        &&& within(self.normal, AXIS_MAX as int)
        &&& self.radius matches Some(r) ==> -LENGTH_MAX <= r <= LENGTH_MAX
    }

    /// Whether the magnitudes are within what the arithmetic can hold.
    pub fn check_range(&self) -> (ok: bool)
        ensures
            ok == self.in_range(),
    {
        let c = &self.center;
        let n = &self.normal;
        let radius_ok = match self.radius {
            Some(r) => -LENGTH_MAX <= r && r <= LENGTH_MAX,
            None => true,
        };
        radius_ok && -LENGTH_MAX <= c[0] && c[0] <= LENGTH_MAX && -LENGTH_MAX <= c[1] && c[1]
            <= LENGTH_MAX && -LENGTH_MAX <= c[2] && c[2] <= LENGTH_MAX && -AXIS_MAX <= n[0] && n[0]
            <= AXIS_MAX && -AXIS_MAX <= n[1] && n[1] <= AXIS_MAX && -AXIS_MAX <= n[2] && n[2]
            <= AXIS_MAX
    }
}

/// What the surface of a face says of it.
#[derive(Clone, Copy, Debug)]
pub struct FaceGeometry {
    pub face_type: FaceType,
    pub normal: [i64; 3],
    pub center: [i64; 3],
    pub radius: Option<i64>,
    pub axis: Option<[i64; 3]>,
}

/// The record of the first reference that names an AXIS2_PLACEMENT_3D.
pub open spec fn placement_ref(records: Seq<EntityRecord>, refs: Seq<i64>) -> Option<EntityRecord>
    decreases refs.len(),
{
    if refs.len() == 0 {
        None
    } else {
        match record_with_id(records, refs[0]) {
            Some(e) => if e.kind == "AXIS2_PLACEMENT_3D".spec_bytes() {
                Some(e)
            } else {
                placement_ref(records, refs.drop_first())
            },
            None => placement_ref(records, refs.drop_first()),
        }
    }
}

/// The record of the first reference that names a surface.
pub open spec fn surface_ref(records: Seq<EntityRecord>, refs: Seq<i64>) -> Option<EntityRecord>
    decreases refs.len(),
{
    if refs.len() == 0 {
        None
    } else {
        match record_with_id(records, refs[0]) {
            Some(e) => if surface_type(e.kind) is Some {
                Some(e)
            } else {
                surface_ref(records, refs.drop_first())
            },
            None => surface_ref(records, refs.drop_first()),
        }
    }
}

/// Origin and Z axis of the placement that a payload refers to: of the first
/// reference to an AXIS2_PLACEMENT_3D, whose first reference names the origin
/// and whose second names the axis.
pub open spec fn axis_of(records: Seq<EntityRecord>, data: Seq<u8>) -> Option<
    (Option<[i64; 3]>, Option<[i64; 3]>),
> {
    match placement_ref(records, refs_of(data)) {
        Some(p) => Some(
            (
                ref_point(records, refs_of(p.data), 0),
                ref_direction(records, refs_of(p.data), 1),
            ),
        ),
        None => None,
    }
}

/// Origin and Z axis of the placement that a payload refers to.
pub fn find_axis_placement(entities: &EntityIndex, data: &[u8]) -> (r: Option<
    (Option<[i64; 3]>, Option<[i64; 3]>),
>)
    ensures
        r == axis_of(entities.records(), data@),
        r matches Some(a) ==> (a.0 matches Some(p) ==> within(p, LENGTH_MAX as int)) && (
        a.1 matches Some(d) ==> within(d, SCALE as int)),
{
    let refs = parse_refs(data);
    let mut i: usize = 0;
    assert(refs@.skip(0) =~= refs@);
    while i < refs.len()
        invariant
            i <= refs@.len(),
            refs@ == refs_of(data@),
            placement_ref(entities.records(), refs@) == placement_ref(
                entities.records(),
                refs@.skip(i as int),
            ),
        decreases refs@.len() - i,
    {
        proof {
            assert(refs@.skip(i as int)[0] == refs@[i as int]);
            assert(refs@.skip(i as int).drop_first() =~= refs@.skip(i + 1));
        }
        match entities.get(refs[i]) {
            Some(e) => {
                if same_bytes(e.entity_type.as_slice(), "AXIS2_PLACEMENT_3D".as_bytes()) {
                    let inner = parse_refs(e.data.as_slice());
                    let position = point_at_ref(entities, &inner, 0);
                    let direction = direction_at_ref(entities, &inner, 1);
                    return Some((position, direction));
                }
            },
            None => {},
        }
        i = i + 1;
    }
    assert(refs@.skip(refs@.len() as int).len() == 0);
    None
}

/// Placement and radius of a cylindrical surface: the radius is the last
/// unsigned literal of the payload; both only where a placement is found.
pub open spec fn cylinder_of(records: Seq<EntityRecord>, data: Seq<u8>) -> Option<
    ((Option<[i64; 3]>, Option<[i64; 3]>), Option<i64>),
> {
    match axis_of(records, data) {
        Some(placement) => Some((placement, trailing_number(data))),
        None => None,
    }
}

/// Placement and radius of a cylindrical surface.
pub fn parse_cylindrical_surface(entities: &EntityIndex, data: &[u8]) -> (r: Option<
    ((Option<[i64; 3]>, Option<[i64; 3]>), Option<i64>),
>)
    ensures
        r == cylinder_of(entities.records(), data@),
        r matches Some(c) ==> (c.0.0 matches Some(p) ==> within(p, LENGTH_MAX as int)) && (
        c.0.1 matches Some(d) ==> within(d, SCALE as int)) && (c.1 matches Some(v) ==> 0 <= v
            <= LENGTH_MAX),
{
    let placement = find_axis_placement(entities, data);
    let radius = parse_trailing_number(data);
    match placement {
        Some(p) => Some((p, radius)),
        None => None,
    }
}

/// What a face is when nothing is known of its surface.
pub open spec fn default_geometry() -> FaceGeometry {
    FaceGeometry {
        face_type: FaceType::Freeform,
        normal: [0, 0, SCALE],
        center: [0, 0, 0],
        radius: None,
        axis: None,
    }
}

/// What the surface of a face says of it. The first reference of the face to
/// a surface record decides its type. A plane gives its origin as centre and
/// its Z axis as normal and axis. A cylinder gives its origin as centre, its
/// Z axis as axis with plus X as normal, and its radius. What is missing
/// keeps the default: freeform, normal plus Z, centre zero.
pub open spec fn face_geometry(records: Seq<EntityRecord>, data: Seq<u8>) -> FaceGeometry {
    match surface_ref(records, refs_of(data)) {
        None => default_geometry(),
        Some(surface) => match surface_type(surface.kind) {
            Some(FaceType::Planar) => {
                let placement = axis_of(records, surface.data);
                FaceGeometry {
                    face_type: FaceType::Planar,
                    normal: match placement {
                        Some((_, Some(d))) => d,
                        _ => [0, 0, SCALE],
                    },
                    center: match placement {
                        Some((Some(p), _)) => p,
                        _ => [0, 0, 0],
                    },
                    radius: None,
                    axis: match placement {
                        Some((_, Some(d))) => Some(d),
                        _ => None,
                    },
                }
            },
            Some(FaceType::Cylindrical) => {
                let cylinder = cylinder_of(records, surface.data);
                FaceGeometry {
                    face_type: FaceType::Cylindrical,
                    normal: match cylinder {
                        Some(((_, Some(_)), _)) => [SCALE, 0, 0],
                        _ => [0, 0, SCALE],
                    },
                    center: match cylinder {
                        Some(((Some(p), _), _)) => p,
                        _ => [0, 0, 0],
                    },
                    radius: match cylinder {
                        Some((_, r)) => r,
                        None => None,
                    },
                    axis: match cylinder {
                        Some(((_, Some(d)), _)) => Some(d),
                        _ => None,
                    },
                }
            },
            Some(t) => FaceGeometry {
                face_type: t,
                normal: [0, 0, SCALE],
                center: [0, 0, 0],
                radius: None,
                axis: None,
            },
            None => default_geometry(),
        },
    }
}

/// What the surface of a face says of it.
pub fn extract_face_geometry(entities: &EntityIndex, data: &[u8]) -> (g: FaceGeometry)
    ensures
        g == face_geometry(entities.records(), data@),
        within(g.center, LENGTH_MAX as int),
        within(g.normal, SCALE as int),
        g.radius matches Some(r) ==> 0 <= r <= LENGTH_MAX,
{
    let refs = parse_refs(data);
    let mut i: usize = 0;
    assert(refs@.skip(0) =~= refs@);
    while i < refs.len()
        invariant
            i <= refs@.len(),
            refs@ == refs_of(data@),
            surface_ref(entities.records(), refs@) == surface_ref(
                entities.records(),
                refs@.skip(i as int),
            ),
        decreases refs@.len() - i,
    {
        proof {
            assert(refs@.skip(i as int)[0] == refs@[i as int]);
            assert(refs@.skip(i as int).drop_first() =~= refs@.skip(i + 1));
        }
        match entities.get(refs[i]) {
            Some(e) => {
                match classify_surface(e.entity_type.as_slice()) {
                    Some(FaceType::Planar) => {
                        let mut g = FaceGeometry {
                            face_type: FaceType::Planar,
                            normal: [0, 0, SCALE],
                            center: [0, 0, 0],
                            radius: None,
                            axis: None,
                        };
                        match find_axis_placement(entities, e.data.as_slice()) {
                            Some(placement) => {
                                match placement.0 {
                                    Some(p) => {
                                        g.center = p;
                                    },
                                    None => {},
                                }
                                match placement.1 {
                                    Some(d) => {
                                        g.normal = d;
                                        g.axis = Some(d);
                                    },
                                    None => {},
                                }
                            },
                            None => {},
                        }
                        return g;
                    },
                    Some(FaceType::Cylindrical) => {
                        let mut g = FaceGeometry {
                            face_type: FaceType::Cylindrical,
                            normal: [0, 0, SCALE],
                            center: [0, 0, 0],
                            radius: None,
                            axis: None,
                        };
                        match parse_cylindrical_surface(entities, e.data.as_slice()) {
                            Some(cylinder) => {
                                match cylinder.0.0 {
                                    Some(p) => {
                                        g.center = p;
                                    },
                                    None => {},
                                }
                                match cylinder.0.1 {
                                    Some(d) => {
                                        g.axis = Some(d);
                                        g.normal = [SCALE, 0, 0];
                                    },
                                    None => {},
                                }
                                g.radius = cylinder.1;
                            },
                            None => {},
                        }
                        return g;
                    },
                    Some(t) => {
                        return FaceGeometry {
                            face_type: t,
                            normal: [0, 0, SCALE],
                            center: [0, 0, 0],
                            radius: None,
                            axis: None,
                        };
                    },
                    None => {},
                }
            },
            None => {},
        }
        i = i + 1;
    }
    assert(refs@.skip(refs@.len() as int).len() == 0);
    FaceGeometry {
        face_type: FaceType::Freeform,
        normal: [0, 0, SCALE],
        center: [0, 0, 0],
        radius: None,
        axis: None,
    }
}

/// The face that a record stands for, as face number `ordinal`.
pub open spec fn face_of(records: Seq<EntityRecord>, e: EntityRecord, ordinal: int) -> ParsedFace {
    let g = face_geometry(records, e.data);
    ParsedFace {
        id: ordinal as i64,
        face_type: g.face_type,
        normal: g.normal,
        center: g.center,
        area: 0,
        radius: g.radius,
        axis: g.axis,
        step_entity_id: Some(e.id),
    }
}

/// Whether a record stands for a face.
pub open spec fn is_face_kind(kind: Seq<u8>) -> bool {
    kind == "ADVANCED_FACE".spec_bytes() || kind == "FACE_SURFACE".spec_bytes()
}

/// The faces among the first `n` records, in the order of the text and
/// numbered from zero.
pub open spec fn faces_upto(records: Seq<EntityRecord>, n: int) -> Seq<ParsedFace>
    decreases n,
{
    if n <= 0 {
        Seq::empty()
    } else if is_current(records, n - 1) && is_face_kind(records[n - 1].kind) {
        faces_upto(records, n - 1).push(
            face_of(records, records[n - 1], faces_upto(records, n - 1).len() as int),
        )
    } else {
        faces_upto(records, n - 1)
    }
}

/// The faces of the text: one for every ADVANCED_FACE and FACE_SURFACE record.
pub open spec fn faces_of(records: Seq<EntityRecord>) -> Seq<ParsedFace> {
    faces_upto(records, records.len() as int)
}

/// Every face is within what the arithmetic can hold.
pub open spec fn faces_in_range(faces: Seq<ParsedFace>) -> bool {
    forall|k: int| 0 <= k < faces.len() ==> (#[trigger] faces[k]).in_range()
}

/// The faces of a part. Every face of the text belongs to every part: the
/// number of the part decides nothing.
pub fn extract_faces_for_product(entities: &EntityIndex, product_id: i64) -> (faces: Vec<
    ParsedFace,
>)
    ensures
        faces@ == faces_of(entities.records()),
        faces_in_range(faces@),
{
    extract_faces(entities)
}

/// The faces of the text, in the order of their records.
pub fn extract_faces(entities: &EntityIndex) -> (faces: Vec<ParsedFace>)
    ensures
        faces@ == faces_of(entities.records()),
        faces_in_range(faces@),
{
    let ghost records = entities.records();
    let mut faces: Vec<ParsedFace> = Vec::new();
    let n = entities.len();
    let mut j: usize = 0;
    while j < n
        invariant
            j <= n,
            n == records.len(),
            n <= 0x7fff_ffff_ffff_ffff,
            records == entities.records(),
            faces@ == faces_upto(records, j as int),
            faces@.len() <= j,
            faces_in_range(faces@),
        decreases n - j,
    {
        let e = entities.entity(j);
        if entities.is_current(j) && (same_bytes(
            e.entity_type.as_slice(),
            "ADVANCED_FACE".as_bytes(),
        ) || same_bytes(e.entity_type.as_slice(), "FACE_SURFACE".as_bytes())) {
            let g = extract_face_geometry(entities, e.data.as_slice());
            let ordinal: i64 = faces.len() as i64;
            faces.push(
                ParsedFace {
                    id: ordinal,
                    face_type: g.face_type,
                    normal: g.normal,
                    center: g.center,
                    area: 0,
                    radius: g.radius,
                    axis: g.axis,
                    step_entity_id: Some(e.id),
                },
            );
        }
        j = j + 1;
    }
    faces
}

/// The box around the centres of the faces of a part, widened by the radius
/// of each face that has one.
#[derive(Clone, Copy, Debug)]
pub struct PartBoundingBox {
    pub min: [i64; 3],
    pub max: [i64; 3],
    pub dimensions: [i64; 3],
}

/// Least coordinate that a face reaches along an axis.
pub open spec fn face_low(face: ParsedFace, axis: int) -> int {
    match face.radius {
        Some(r) => if face.center[axis] - r < face.center[axis] {
            face.center[axis] - r
        } else {
            face.center[axis] as int
        },
        None => face.center[axis] as int,
    }
}

/// Greatest coordinate that a face reaches along an axis.
pub open spec fn face_high(face: ParsedFace, axis: int) -> int {
    match face.radius {
        Some(r) => if face.center[axis] + r > face.center[axis] {
            face.center[axis] + r
        } else {
            face.center[axis] as int
        },
        None => face.center[axis] as int,
    }
}

/// Least coordinate that the faces reach along an axis.
pub open spec fn lowest(faces: Seq<ParsedFace>, axis: int) -> int
    decreases faces.len(),
{
    if faces.len() <= 1 {
        face_low(faces[0], axis)
    } else if face_low(faces.last(), axis) < lowest(faces.drop_last(), axis) {
        face_low(faces.last(), axis)
    } else {
        lowest(faces.drop_last(), axis)
    }
}

/// Greatest coordinate that the faces reach along an axis.
pub open spec fn highest(faces: Seq<ParsedFace>, axis: int) -> int
    decreases faces.len(),
{
    if faces.len() <= 1 {
        face_high(faces[0], axis)
    } else if face_high(faces.last(), axis) > highest(faces.drop_last(), axis) {
        face_high(faces.last(), axis)
    } else {
        highest(faces.drop_last(), axis)
    }
}

/// The bounding box of the faces; none where there is no face.
pub open spec fn bounding_box_of(faces: Seq<ParsedFace>) -> Option<PartBoundingBox> {
    if faces.len() == 0 {
        None
    } else {
        Some(
            PartBoundingBox {
                min: [
                    lowest(faces, 0) as i64,
                    lowest(faces, 1) as i64,
                    lowest(faces, 2) as i64,
                ],
                max: [
                    highest(faces, 0) as i64,
                    highest(faces, 1) as i64,
                    highest(faces, 2) as i64,
                ],
                dimensions: [
                    (highest(faces, 0) - lowest(faces, 0)) as i64,
                    (highest(faces, 1) - lowest(faces, 1)) as i64,
                    (highest(faces, 2) - lowest(faces, 2)) as i64,
                ],
            },
        )
    }
}

proof fn lemma_extent_bounds(faces: Seq<ParsedFace>, axis: int)
    requires
        faces.len() > 0,
        faces_in_range(faces),
        0 <= axis < 3,
    ensures
        -2 * LENGTH_MAX <= lowest(faces, axis) <= highest(faces, axis) <= 2 * LENGTH_MAX,
    decreases faces.len(),
{
    assert(faces[0].in_range());
    assert(faces.last().in_range());
    if faces.len() > 1 {
        let front = faces.drop_last();
        assert forall|k: int| 0 <= k < front.len() implies (#[trigger] front[k]).in_range() by {
            assert(front[k] == faces[k]);
        }
        lemma_extent_bounds(front, axis);
    }
}

fn extent(faces: &Vec<ParsedFace>, axis: usize) -> (r: (i64, i64))
    requires
        faces@.len() > 0,
        faces_in_range(faces@),
        axis < 3,
    ensures
        r.0 == lowest(faces@, axis as int),
        r.1 == highest(faces@, axis as int),
        -2 * LENGTH_MAX <= r.0 <= r.1 <= 2 * LENGTH_MAX,
{
    let mut low: i64 = 0;
    let mut high: i64 = 0;
    let mut k: usize = 0;
    while k < faces.len()
        invariant
            k <= faces@.len(),
            faces@.len() > 0,
            faces_in_range(faces@),
            axis < 3,
            k > 0 ==> low == lowest(faces@.take(k as int), axis as int),
            k > 0 ==> high == highest(faces@.take(k as int), axis as int),
        decreases faces@.len() - k,
    {
        let face = &faces[k];
        assert(face.in_range());
        let c: i64 = face.center[axis];
        let (face_min, face_max) = match face.radius {
            Some(r) => (
                if c - r < c {
                    c - r
                } else {
                    c
                },
                if c + r > c {
                    c + r
                } else {
                    c
                },
            ),
            None => (c, c),
        };
        proof {
            let after = faces@.take(k + 1);
            assert(after.drop_last() =~= faces@.take(k as int));
            assert(after.last() == faces@[k as int]);
            assert(after[0] == faces@[0]);
        }
        if k == 0 {
            low = face_min;
            high = face_max;
        } else {
            if face_min < low {
                low = face_min;
            }
            if face_max > high {
                high = face_max;
            }
        }
        k = k + 1;
    }
    proof {
        assert(faces@.take(faces@.len() as int) =~= faces@);
        lemma_extent_bounds(faces@, axis as int);
    }
    (low, high)
}

/// The bounding box of the faces; none where there is no face.
pub fn calculate_bounding_box(faces: &Vec<ParsedFace>) -> (r: Option<PartBoundingBox>)
    requires
        faces_in_range(faces@),
    ensures
        r == bounding_box_of(faces@),
{
    if faces.len() == 0 {
        return None;
    }
    let x = extent(faces, 0);
    let y = extent(faces, 1);
    let z = extent(faces, 2);
    Some(
        PartBoundingBox {
            min: [x.0, y.0, z.0],
            max: [x.1, y.1, z.1],
            dimensions: [x.1 - x.0, y.1 - y.0, z.1 - z.0],
        },
    )
}

/// A part of the assembly.
#[derive(Debug)]
pub struct ParsedPart {
    pub id: Vec<u8>,
    pub name: Vec<u8>,
    pub step_entity_id: i64,
    pub transform: [i64; 16],
    pub bounding_box: Option<PartBoundingBox>,
    pub faces: Vec<ParsedFace>,
    pub product_definition_id: Option<i64>,
}

impl ParsedPart {
    /// The magnitudes are within what the arithmetic can hold.
    pub open spec fn in_range(&self) -> bool {
        &&& placement_in_range(self.transform)
        &&& faces_in_range(self.faces@)
    }

    /// Whether the magnitudes are within what the arithmetic can hold.
    pub fn check_range(&self) -> (ok: bool)
        ensures
            ok == self.in_range(),
    {
        if !check_placement(&self.transform) {
            return false;
        }
        let mut k: usize = 0;
        while k < self.faces.len()
            invariant
                k <= self.faces@.len(),
                forall|i: int| 0 <= i < k ==> (#[trigger] self.faces@[i]).in_range(),
            decreases self.faces@.len() - k,
        {
            if !self.faces[k].check_range() {
                return false;
            }
            k = k + 1;
        }
        true
    }
}

/// Result of reading an assembly.
#[derive(Debug)]
pub struct AssemblyParseResult {
    pub success: bool,
    pub error: Option<String>,
    pub filename: Option<String>,
    pub parts: Vec<ParsedPart>,
    pub total_parts: usize,
    pub has_sub_assemblies: bool,
}

/// The text names the exchange format.
pub open spec fn has_step_marker(text: Seq<u8>) -> bool {
    contains_word(text, "ISO-10303-21".spec_bytes()) || contains_word(text, "STEP".spec_bytes())
}

/// `part` is part number `k` of the text, for the product `product`: with the
/// name and number of the product and every face of the text with the box
/// around them. The text ties no placement to a part, so every part has the
/// placement that moves nothing; `extract_transforms` gives the placements
/// that the text holds.
pub open spec fn is_part_of(
    part: ParsedPart,
    records: Seq<EntityRecord>,
    k: int,
    product: ProductRecord,
) -> bool {
    &&& part.id@ == numbered("part-".spec_bytes(), k)
    &&& part.name@ == product.name
    &&& part.step_entity_id == product.id
    &&& part.product_definition_id == Some(product.id)
    &&& part.transform == identity_spec()
    &&& part.faces@ == faces_of(records)
    &&& part.bounding_box == bounding_box_of(faces_of(records))
}

/// `r` refuses a text that does not name the exchange format.
pub open spec fn is_refusal(r: AssemblyParseResult, filename: Seq<char>) -> bool {
    &&& !r.success
    &&& r.error matches Some(e) && e@ == "Invalid STEP file format"@
    &&& r.filename matches Some(f) && f@ == filename
    &&& r.parts@.len() == 0
    &&& r.total_parts == 0
    &&& !r.has_sub_assemblies
}

/// `r` holds the parts of the text.
pub open spec fn is_assembly_of(r: AssemblyParseResult, text: Seq<u8>, filename: Seq<char>) -> bool {
    let records = records_of(text);
    let products = products_of(records);
    &&& r.success
    &&& r.error is None
    &&& r.filename matches Some(f) && f@ == filename
    &&& r.has_sub_assemblies == contains_word(text, "NEXT_ASSEMBLY_USAGE_OCCURRENCE".spec_bytes())
    &&& r.total_parts == products.len()
    &&& r.parts@.len() == products.len()
    &&& forall|k: int|
        0 <= k < products.len() ==> is_part_of(#[trigger] r.parts@[k], records, k, products[k])
            && r.parts@[k].in_range()
}

fn copy_faces(faces: &Vec<ParsedFace>) -> (out: Vec<ParsedFace>)
    ensures
        out@ == faces@,
{
    let mut out: Vec<ParsedFace> = Vec::new();
    let mut k: usize = 0;
    while k < faces.len()
        invariant
            k <= faces@.len(),
            out@ == faces@.take(k as int),
        decreases faces@.len() - k,
    {
        out.push(faces[k]);
        assert(out@ =~= faces@.take(k + 1));
        k = k + 1;
    }
    assert(faces@.take(faces@.len() as int) =~= faces@);
    out
}

/// The parts of an assembly with their placements and faces, read from STEP
/// text. A text that names neither `ISO-10303-21` nor `STEP` is refused.
pub fn parse_assembly_step(content: String, filename: String) -> (r: AssemblyParseResult)
    ensures
        !has_step_marker(encode_utf8(content@)) ==> is_refusal(r, filename@),
        has_step_marker(encode_utf8(content@)) ==> is_assembly_of(
            r,
            encode_utf8(content@),
            filename@,
        ),
{
    let text: &[u8] = content.as_str().as_bytes();
    if !has_word(text, "ISO-10303-21".as_bytes()) && !has_word(text, "STEP".as_bytes()) {
        return AssemblyParseResult {
            success: false,
            error: Some("Invalid STEP file format".to_owned()),
            filename: Some(filename),
            parts: Vec::new(),
            total_parts: 0,
            has_sub_assemblies: false,
        };
    }
    let entities = parse_step_entities(text);
    let ghost records = entities.records();
    let products = extract_product_definitions(&entities);
    let all_faces = extract_faces(&entities);
    let bounding_box = calculate_bounding_box(&all_faces);
    let mut parts: Vec<ParsedPart> = Vec::new();
    let mut k: usize = 0;
    while k < products.len()
        invariant
            k <= products@.len(),
            records == entities.records(),
            product_views(products@) == products_of(records),
            products@.len() <= i64::MAX,
            all_faces@ == faces_of(records),
            faces_in_range(all_faces@),
            bounding_box == bounding_box_of(faces_of(records)),
            parts@.len() == k,
            forall|i: int|
                0 <= i < k ==> is_part_of(#[trigger] parts@[i], records, i, products_of(records)[i])
                    && parts@[i].in_range(),
        decreases products@.len() - k,
    {
        let product = &products[k];
        assert(product_views(products@)[k as int] == product@);
        let transform = identity_matrix();
        let faces = copy_faces(&all_faces);
        let part = ParsedPart {
            id: numbered_name("part-".as_bytes(), k as i64),
            name: copy_range(product.name.as_slice(), 0, product.name.len()),
            step_entity_id: product.id,
            transform,
            bounding_box,
            faces,
            product_definition_id: Some(product.id),
        };
        assert(part.name@ =~= product.name@);
        parts.push(part);
        k = k + 1;
    }
    let has_sub_assemblies = has_word(text, "NEXT_ASSEMBLY_USAGE_OCCURRENCE".as_bytes());
    AssemblyParseResult {
        success: true,
        error: None,
        filename: Some(filename),
        total_parts: parts.len(),
        parts,
        has_sub_assemblies,
    }
}

} // verus!
