//! From a JSON message body to hypervectors.

use crate::text::prefixed;
use crate::vsa::{
    block_entry, bound, bundled, encoded, entry, lemma_entries_determine, optional, superposed,
    well_formed, SparseVec, BLOCK,
};
use vstd::prelude::*;
use vstd::string::*;
use vstd::utf8::encode_utf8;

verus! {

/// What `serde_json` makes of a message body: the members of a JSON object, each
/// a name and the compact text of its value; nothing for other JSON; or the text
/// of the parse error.
pub uninterp spec fn json_members(body: Seq<u8>) -> Result<
    Option<Seq<(Seq<char>, Seq<char>)>>,
    Seq<char>,
>;

/// Members of a JSON object: names and value texts.
pub type Members = Vec<(String, String)>;

pub open spec fn members_view(m: Members) -> Seq<(Seq<char>, Seq<char>)> {
    Seq::new(m@.len(), |i: int| (m@[i].0@, m@[i].1@))
}

pub open spec fn parsed_view(p: Result<Option<Members>, String>) -> Result<
    Option<Seq<(Seq<char>, Seq<char>)>>,
    Seq<char>,
> {
    match p {
        Ok(Some(m)) => Ok(Some(members_view(m))),
        Ok(None) => Ok(None),
        Err(text) => Err(text@),
    }
}

/// No name occurs twice.
pub open spec fn distinct_names<T>(m: Seq<(Seq<char>, T)>) -> bool {
    forall|i: int, j: int| 0 <= i < j < m.len() ==> m[i].0 != m[j].0
}

/// The names of an object, where there is one, are distinct.
pub open spec fn distinct_members(p: Result<Option<Members>, String>) -> bool {
    match p {
        Ok(Some(m)) => distinct_names(members_view(m)),
        _ => true,
    }
}

/// Calls `serde_json::from_slice` for a `serde_json::Value`, takes an object apart
/// into its members and writes each value with the `Display` of
/// `serde_json::Value`.  Trusted: the outcome depends on the body alone, and an
/// object holds no name twice.
#[verifier::external_body]
fn read_object(body: &[u8]) -> (p: Result<Option<Members>, String>)
    ensures
        parsed_view(p) == json_members(body@),
        distinct_members(p),
{
    match serde_json::from_slice::<serde_json::Value>(body) {
        Ok(serde_json::Value::Object(object)) => Ok(
            Some(object.iter().map(|(name, value)| (name.clone(), value.to_string())).collect()),
        ),
        Ok(_) => Ok(None),
        Err(e) => Err(e.to_string()),
    }
}

/// The encoded fields of a message, in the order of its members.
#[derive(Debug)]
pub struct Fields {
    pub entries: Vec<(String, SparseVec)>,
}

impl View for Fields {
    type V = Seq<(Seq<char>, (Seq<usize>, Seq<usize>))>;

    open spec fn view(&self) -> Seq<(Seq<char>, (Seq<usize>, Seq<usize>))> {
        Seq::new(self.entries@.len(), |i: int| (self.entries@[i].0@, self.entries@[i].1@))
    }
}

impl Fields {
    /// No field occurs twice.
    pub open spec fn wf(&self) -> bool {
        distinct_names(self@)
    }

    /// No fields.
    pub fn new() -> (r: Fields)
        ensures
            r.wf(),
            r@ == Seq::<(Seq<char>, (Seq<usize>, Seq<usize>))>::empty(),
    {
        let r = Fields { entries: Vec::new() };
        assert(r@ =~= Seq::<(Seq<char>, (Seq<usize>, Seq<usize>))>::empty());
        r
    }

    /// Number of fields.
    pub fn len(&self) -> (n: usize)
        ensures
            n == self@.len(),
    {
        self.entries.len()
    }

    /// The vector of the named field.
    pub fn get(&self, name: &str) -> (r: Option<&SparseVec>)
        requires
            self.wf(),
        ensures
            match r {
                Some(v) => self@.contains((name@, v@)),
                None => forall|i: int| 0 <= i < self@.len() ==> self@[i].0 != name@,
            },
    {
        let wanted = name.to_owned();
        let mut i: usize = 0;
        while i < self.entries.len()
            invariant
                i <= self.entries@.len(),
                wanted@ == name@,
                forall|j: int| 0 <= j < i ==> self@[j].0 != name@,
            decreases self.entries.len() - i,
        {
            if self.entries[i].0 == wanted {
                assert(self@[i as int] == (name@, self.entries@[i as int].1@));
                return Some(&self.entries[i].1);
            }
            i = i + 1;
        }
        None
    }
}

/// A field: its name's vector bound to its value's vector.
pub open spec fn encoded_field(member: (Seq<char>, Seq<char>)) -> (
    Seq<char>,
    (Seq<usize>, Seq<usize>),
) {
    (member.0, bound(encoded(encode_utf8(member.0)), encoded(encode_utf8(member.1))))
}

/// All fields of a message.
pub open spec fn encoded_fields(m: Seq<(Seq<char>, Seq<char>)>) -> Seq<
    (Seq<char>, (Seq<usize>, Seq<usize>)),
> {
    Seq::new(m.len(), |i: int| encoded_field(m[i]))
}

/// What encoding a message comes to, given its parse.
pub open spec fn encoding_outcome(
    parsed: Result<Option<Seq<(Seq<char>, Seq<char>)>>, Seq<char>>,
) -> Result<Seq<(Seq<char>, (Seq<usize>, Seq<usize>))>, Seq<char>> {
    match parsed {
        Ok(Some(m)) => Ok(encoded_fields(m)),
        Ok(None) => Err("body is not a JSON object"@),
        Err(text) => Err("JSON parse error: "@ + text),
    }
}

pub open spec fn fields_view(r: Result<Fields, String>) -> Result<
    Seq<(Seq<char>, (Seq<usize>, Seq<usize>))>,
    Seq<char>,
> {
    match r {
        Ok(f) => Ok(f@),
        Err(text) => Err(text@),
    }
}

/// Every field's vector is well formed.
pub open spec fn all_well_formed(f: Seq<(Seq<char>, (Seq<usize>, Seq<usize>))>) -> bool {
    forall|i: int| 0 <= i < f.len() ==> well_formed((#[trigger] f[i]).1)
}

/// Whether a field is the product of its name's block and its value's block.
pub open spec fn product_of_blocks(
    member: (Seq<char>, Seq<char>),
    v: (Seq<usize>, Seq<usize>),
) -> bool {
    let name = encode_utf8(member.0);
    let text = encode_utf8(member.1);
    name.len() <= BLOCK && text.len() <= BLOCK ==> forall|d: usize| #[trigger]
        entry(v, d) == block_entry(name, d) * block_entry(text, d)
}

/// Every field is the product of its member's blocks.
pub open spec fn all_products(
    m: Seq<(Seq<char>, Seq<char>)>,
    f: Seq<(Seq<char>, (Seq<usize>, Seq<usize>))>,
) -> bool {
    forall|i: int| 0 <= i < f.len() ==> product_of_blocks(m[i], (#[trigger] f[i]).1)
}

/// Encodes each member of a parsed message as a bound hypervector.
pub fn encode_members(parsed: Result<Option<Members>, String>) -> (r: Result<Fields, String>)
    requires
        distinct_members(parsed),
    ensures
        fields_view(r) == encoding_outcome(parsed_view(parsed)),
        r matches Ok(f) ==> f.wf() && all_well_formed(f@) && all_products(
            parsed_view(parsed)->Ok_0->Some_0,
            f@,
        ),
{
    match parsed {
        Err(text) => Err(prefixed("JSON parse error: ", text.as_str())),
        Ok(None) => Err("body is not a JSON object".to_owned()),
        Ok(Some(members)) => {
            let ghost m = members_view(members);
            let mut fields = Fields::new();
            let mut i: usize = 0;
            while i < members.len()
                invariant
                    i <= members@.len(),
                    m == members_view(members),
                    distinct_names(m),
                    fields@ == encoded_fields(m.take(i as int)),
                    all_well_formed(fields@),
                    all_products(m, fields@),
                decreases members.len() - i,
            {
                let (name, text) = &members[i];
                let key_vec = SparseVec::encode_data(name.as_str().as_bytes());
                let val_vec = SparseVec::encode_data(text.as_str().as_bytes());
                let field_vec = key_vec.bind(&val_vec);
                let ghost before = fields@;
                fields.entries.push((name.clone(), field_vec));
                assert(fields@ =~= before.push(encoded_field(m[i as int])));
                assert(product_of_blocks(m[i as int], field_vec@)) by {
                    assert forall|d: usize|
                        encode_utf8(name@).len() <= BLOCK && encode_utf8(text@).len()
                            <= BLOCK implies #[trigger] entry(field_vec@, d) == block_entry(
                        encode_utf8(name@),
                        d,
                    ) * block_entry(encode_utf8(text@), d) by {
                        assert(entry(field_vec@, d) == entry(key_vec@, d) * entry(val_vec@, d));
                    }
                }
                assert forall|j: int| 0 <= j < fields@.len() implies product_of_blocks(
                    m[j],
                    (#[trigger] fields@[j]).1,
                ) by {
                    if j < i {
                        assert(fields@[j] == before[j]);
                    }
                }
                assert(m.take(i + 1) =~= m.take(i as int).push(m[i as int]));
                assert(encoded_fields(m.take(i + 1)) =~= encoded_fields(m.take(i as int)).push(
                    encoded_field(m[i as int]),
                ));
                i = i + 1;
            }
            assert(m.take(i as int) =~= m);
            Ok(fields)
        },
    }
}

/// Parses a JSON object and encodes each member as a bound hypervector.
pub fn encode_json_fields(body: &[u8]) -> (r: Result<Fields, String>)
    ensures
        fields_view(r) == encoding_outcome(json_members(body@)),
        r matches Ok(f) ==> f.wf() && all_well_formed(f@) && all_products(
            json_members(body@)->Ok_0->Some_0,
            f@,
        ),
{
    encode_members(read_object(body))
}

/// The fields of a body; none where it is refused.
pub open spec fn fields_of(body: Seq<u8>) -> Seq<(Seq<char>, (Seq<usize>, Seq<usize>))> {
    match encoding_outcome(json_members(body)) {
        Ok(fields) => fields,
        Err(_) => Seq::empty(),
    }
}

/// The bundle of several vectors, from the first on.
pub open spec fn superposition(vs: Seq<(Seq<usize>, Seq<usize>)>) -> Option<
    (Seq<usize>, Seq<usize>),
>
    decreases vs.len(),
{
    if vs.len() == 0 {
        None
    } else if vs.len() == 1 {
        Some(vs[0])
    } else {
        Some(bundled(superposition(vs.drop_last())->Some_0, vs.last()))
    }
}

/// The vectors of the fields.
pub open spec fn field_vectors(f: Seq<(Seq<char>, (Seq<usize>, Seq<usize>))>) -> Seq<
    (Seq<usize>, Seq<usize>),
> {
    Seq::new(f.len(), |i: int| f[i].1)
}

/// Bundles all fields into one vector; nothing when there are none.
pub fn build_master_bundle(fields: &Fields) -> (r: Option<SparseVec>)
    ensures
        optional(r) == superposition(field_vectors(fields@)),
        r is None <==> fields@.len() == 0,
        all_well_formed(fields@) ==> (r matches Some(v) ==> well_formed(v@)),
{
    if fields.entries.len() == 0 {
        return None;
    }
    let ghost vs = field_vectors(fields@);
    let mut acc = fields.entries[0].1.clone();
    let mut i: usize = 1;
    assert(vs.take(1) =~= seq![vs[0]]);
    assert(fields@[0].1 == vs[0]);
    while i < fields.entries.len()
        invariant
            1 <= i <= fields.entries@.len(),
            vs == field_vectors(fields@),
            superposition(vs.take(i as int)) == Some(acc@),
            all_well_formed(fields@) ==> well_formed(acc@),
        decreases fields.entries.len() - i,
    {
        assert(vs.take(i + 1).drop_last() =~= vs.take(i as int));
        assert(fields@[i as int].1 == vs[i as int]);
        acc = acc.bundle(&fields.entries[i].1);
        i = i + 1;
    }
    assert(vs.take(i as int) =~= vs);
    Some(acc)
}

/// Bundles the vectors of a list; nothing when there are none.
pub(crate) fn bundle_list(vs: &Vec<SparseVec>) -> (r: Option<SparseVec>)
    ensures
        optional(r) == superposition(vectors(vs@)),
        vectors_well_formed(vectors(vs@)) ==> (r matches Some(v) ==> well_formed(v@)),
{
    if vs.len() == 0 {
        return None;
    }
    let ghost all = vectors(vs@);
    assert(forall|i: int| 0 <= i < all.len() ==> all[i] == #[trigger] vs@[i]@);
    let mut acc = vs[0].clone();
    let mut i: usize = 1;
    assert(all.take(1) =~= seq![all[0]]);
    while i < vs.len()
        invariant
            1 <= i <= vs@.len(),
            all == vectors(vs@),
            superposition(all.take(i as int)) == Some(acc@),
            vectors_well_formed(all) ==> well_formed(acc@),
        decreases vs.len() - i,
    {
        assert(all.take(i + 1).drop_last() =~= all.take(i as int));
        assert(all[i as int] == vs@[i as int]@);
        acc = acc.bundle(&vs[i]);
        i = i + 1;
    }
    assert(all.take(i as int) =~= all);
    Some(acc)
}

/// Each vector of a list is well formed.
pub open spec fn vectors_well_formed(vs: Seq<(Seq<usize>, Seq<usize>)>) -> bool {
    forall|i: int| 0 <= i < vs.len() ==> well_formed(#[trigger] vs[i])
}

/// A list of vectors by their views.
pub open spec fn vectors(vs: Seq<SparseVec>) -> Seq<(Seq<usize>, Seq<usize>)> {
    Seq::new(vs.len(), |i: int| vs[i]@)
}

/// A running bundle with one more vector; the vector itself on cold start.
pub open spec fn running(
    old_bundle: Option<(Seq<usize>, Seq<usize>)>,
    new_vec: (Seq<usize>, Seq<usize>),
) -> (Seq<usize>, Seq<usize>) {
    match old_bundle {
        Some(v) => bundled(v, new_vec),
        None => new_vec,
    }
}

/// Adds a vector to a running bundle.
///
/// Well-formed vectors are superposed entry by entry, and a vector that equals the
/// bundle leaves it as it is.
pub fn update_running_bundle(old_bundle: Option<&SparseVec>, new_vec: &SparseVec) -> (r: SparseVec)
    ensures
        r@ == running(optional_ref(old_bundle), new_vec@),
        old_bundle is None ==> r@ == new_vec@,
        old_bundle matches Some(v) ==> well_formed(v@) && well_formed(new_vec@) ==> well_formed(r@)
            && forall|d: usize|
            entry(r@, d) == superposed(#[trigger] entry(v@, d), entry(new_vec@, d)),
        old_bundle matches Some(v) ==> v@ == new_vec@ && well_formed(v@) ==> r@ == v@,
{
    match old_bundle {
        Some(v) => {
            let r = v.bundle(new_vec);
            proof {
                if v@ == new_vec@ && well_formed(v@) {
                    assert forall|d: usize| entry(r@, d) == entry(v@, d) by {
                        let e = entry(v@, d);
                    }
                    lemma_entries_determine(r@, v@);
                }
            }
            r
        },
        None => new_vec.clone(),
    }
}

pub open spec fn optional_ref(v: Option<&SparseVec>) -> Option<(Seq<usize>, Seq<usize>)> {
    match v {
        Some(v) => Some(v@),
        None => None,
    }
}

/// A bundle takes in vectors one after another: the first as it is, each further one by
/// bundling.  A running bundle does so too.
pub proof fn lemma_bundles_grow(
    vs: Seq<(Seq<usize>, Seq<usize>)>,
    v: (Seq<usize>, Seq<usize>),
)
    ensures
        superposition(vs) is Some <==> vs.len() > 0,
        superposition(vs.push(v)) == Some(running(superposition(vs), v)),
        running(None, v) == v,
        vs.len() > 0 ==> running(Some(vs[0]), v) == bundled(vs[0], v),
{
    assert(vs.push(v).drop_last() =~= vs);
}

}
