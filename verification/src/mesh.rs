//! Triangle-mesh storage.
//!
//! A mesh owns a vertex table and a flat index buffer; every three
//! consecutive indices name the corners of one triangle. The vertex payload is
//! a type parameter: the renderer instantiates it with its vertex record
//! (position, normal, texture coordinate), while this module verifies the
//! indexing discipline, which does not depend on the payload.

use vstd::prelude::*;
use crate::utility::MaterialId;

verus! {

/// An index into the mesh table.
#[derive(Debug, Clone, Copy, PartialEq, Eq, Structural)]
pub struct MeshId(pub u32);

impl MeshId {
    pub fn to_index(self) -> (r: usize)
        ensures
            r == self.0 as usize,
    {
        self.0 as usize
    }
}

/// The position of a triangle's first corner in a mesh's index buffer;
/// always a multiple of three.
#[derive(Debug, Clone, Copy, PartialEq, Eq, Structural)]
pub struct TriangleId(pub u32);

impl TriangleId {
    pub fn to_index(self) -> (r: usize)
        ensures
            r == self.0 as usize,
    {
        self.0 as usize
    }
}

/// One vertex of a parsed OBJ face: a position index and optional normal and
/// texture-coordinate indices, all zero-based.
#[derive(Debug, Clone, Copy, PartialEq, Eq, Hash)]
pub struct Index {
    pub position: u32,
    pub normal: Option<u32>,
    pub texcoord: Option<u32>,
}

/// One parsed OBJ face: a span of vertices in the parse's vertex list.
#[derive(Debug, Clone, Copy, PartialEq, Eq)]
pub struct Face {
    pub first_vertex: u32,
    pub num_vertices: u32,
}

/// The distinct entries of `s` in order of first appearance.
pub open spec fn dedup_spec(s: Seq<Index>) -> Seq<Index>
    decreases s.len(),
{
    if s.len() == 0 {
        Seq::empty()
    } else {
        let prefix = dedup_spec(s.drop_last());
        if prefix.contains(s.last()) {
            prefix
        } else {
            prefix.push(s.last())
        }
    }
}

/// Deduplication keeps exactly the entries of `s`, each once.
pub proof fn lemma_dedup_spec_sound(s: Seq<Index>)
    ensures
        dedup_spec(s).no_duplicates(),
        forall|x: Index| dedup_spec(s).contains(x) <==> s.contains(x),
    decreases s.len(),
{
    if s.len() == 0 {
    } else {
        lemma_dedup_spec_sound(s.drop_last());
        let prefix = dedup_spec(s.drop_last());
        assert forall|x: Index| dedup_spec(s).contains(x) implies s.contains(x) by {
            if prefix.contains(x) {
                assert(s.drop_last().contains(x));
                let i = choose|i: int|
                    0 <= i < s.drop_last().len() && #[trigger] s.drop_last()[i] == x;
                assert(s.drop_last()[i] == s[i]);
                assert(s[i] == x);
            } else {
                assert(x == s.last());
                assert(s[s.len() - 1] == x);
            }
        }
        assert forall|x: Index| s.contains(x) implies dedup_spec(s).contains(x) by {
            let i = choose|i: int| 0 <= i < s.len() && #[trigger] s[i] == x;
            let d = dedup_spec(s);
            if i < s.len() - 1 {
                assert(s.drop_last()[i] == x);
                assert(s.drop_last().contains(x));
                let j = choose|j: int| 0 <= j < prefix.len() && #[trigger] prefix[j] == x;
                assert(d[j] == x);
                assert(d.contains(x));
            } else {
                assert(x == s.last());
                if prefix.contains(x) {
                    let j = choose|j: int| 0 <= j < prefix.len() && #[trigger] prefix[j] == x;
                    assert(d[j] == x);
                    assert(d.contains(x));
                } else {
                    assert(d[d.len() - 1] == x);
                    assert(d.contains(x));
                }
            }
        }
        if !prefix.contains(s.last()) {
            assert(dedup_spec(s).drop_last() =~= prefix);
        }
    }
}

fn same_option(a: Option<u32>, b: Option<u32>) -> (r: bool)
    ensures
        r == (a == b),
{
    match (a, b) {
        (Option::None, Option::None) => true,
        (Option::Some(x), Option::Some(y)) => x == y,
        _ => false,
    }
}

fn same_index(a: &Index, b: &Index) -> (r: bool)
    ensures
        r == (a == b),
{
    a.position == b.position && same_option(a.normal, b.normal) && same_option(
        a.texcoord,
        b.texcoord,
    )
}

/// The position of `x` in `uniq`, or `None` when it does not appear.
fn find_index(uniq: &Vec<Index>, x: &Index) -> (r: Option<u32>)
    requires
        uniq@.len() <= u32::MAX,
    ensures
        match r {
            Some(i) => i < uniq@.len() && uniq@[i as int] == *x,
            None => !uniq@.contains(*x),
        },
{
    let n = uniq.len();
    for k in 0..n
        invariant
            n == uniq@.len() <= u32::MAX,
            forall|m: int| 0 <= m < k ==> uniq@[m] != *x,
    {
        if same_index(&uniq[k], x) {
            return Some(k as u32);
        }
    }
    None
}

/// Deduplicates the parsed face vertices: the distinct vertex records in
/// order of first appearance, and for each input vertex its position in
/// that list.
pub fn dedup_vertices(vertices: &Vec<Index>) -> (r: (Vec<Index>, Vec<u32>))
    requires
        vertices@.len() <= u32::MAX,
    ensures
        r.0@ == dedup_spec(vertices@),
        r.1@.len() == vertices@.len(),
        forall|k: int|
            0 <= k < vertices@.len() ==> (#[trigger] r.1@[k]) < r.0@.len() && r.0@[r.1@[k] as int]
                == vertices@[k],
{
    let n = vertices.len();
    let mut uniq = Vec::<Index>::new();
    let mut remap = Vec::<u32>::new();
    for k in 0..n
        invariant
            n == vertices@.len() <= u32::MAX,
            uniq@ == dedup_spec(vertices@.take(k as int)),
            uniq@.len() <= k,
            remap@.len() == k,
            forall|m: int|
                0 <= m < k ==> (#[trigger] remap@[m]) < uniq@.len() && uniq@[remap@[m] as int]
                    == vertices@[m],
    {
        let v = vertices[k];
        proof {
            assert(vertices@.take(k + 1).drop_last() =~= vertices@.take(k as int));
            assert(vertices@.take(k + 1).last() == vertices@[k as int]);
        }
        match find_index(&uniq, &v) {
            Some(i) => {
                proof {
                    assert(uniq@.contains(v)) by {
                        assert(uniq@[i as int] == v);
                    }
                }
                remap.push(i);
            },
            None => {
                remap.push(uniq.len() as u32);
                uniq.push(v);
            },
        }
    }
    proof {
        assert(vertices@.take(n as int) =~= vertices@);
    }
    (uniq, remap)
}

/// Whether every face of the list is a triangle whose vertex span lies
/// inside the remap table.
pub open spec fn faces_triangular(faces: Seq<Face>, num_vertices: int) -> bool {
    forall|f: int|
        0 <= f < faces.len() ==> (#[trigger] faces[f]).num_vertices == 3 && faces[f].first_vertex
            + 2 < num_vertices
}

/// Builds the flat triangle index buffer: three remapped vertex indices per
/// face, in face order. Fails exactly when some face is not a triangle or
/// names vertices outside the table.
pub fn build_triangle_indices(faces: &Vec<Face>, remap: &Vec<u32>) -> (r: Option<Vec<u32>>)
    ensures
        r is Some <==> faces_triangular(faces@, remap@.len() as int),
        r matches Some(indices) ==> {
            &&& indices@.len() == 3 * faces@.len()
            &&& forall|f: int, j: int|
                0 <= f < faces@.len() && 0 <= j < 3 ==> #[trigger] indices@[3 * f + j]
                    == remap@[faces@[f].first_vertex + j]
        },
{
    let mut indices = Vec::<u32>::new();
    let num_faces = faces.len();
    for f in 0..num_faces
        invariant
            num_faces == faces@.len(),
            indices@.len() == 3 * f,
            forall|m: int| 0 <= m < f ==> (#[trigger] faces@[m]).num_vertices == 3
                && faces@[m].first_vertex + 2 < remap@.len(),
            forall|m: int, j: int|
                0 <= m < f && 0 <= j < 3 ==> #[trigger] indices@[3 * m + j]
                    == remap@[faces@[m].first_vertex + j],
    {
        let face = faces[f];
        if face.num_vertices != 3 {
            return None;
        }
        let base = face.first_vertex as usize;
        if remap.len() < 3 || base > remap.len() - 3 {
            return None;
        }
        indices.push(remap[base]);
        indices.push(remap[base + 1]);
        indices.push(remap[base + 2]);
    }
    Some(indices)
}

// ------------------------------------------- OBJ index grammar -------------------------------------------
pub open spec fn is_ascii_digit(c: u8) -> bool {
    48 <= c <= 57
}

/// Length of the digit run at the front of `s`.
pub open spec fn digit_run(s: Seq<u8>) -> nat
    decreases s.len(),
{
    if s.len() == 0 || !is_ascii_digit(s[0]) {
        0
    } else {
        1 + digit_run(s.drop_first())
    }
}

/// The number a digit sequence denotes in base ten.
pub open spec fn digits_value(s: Seq<u8>) -> int
    decreases s.len(),
{
    if s.len() == 0 {
        0
    } else {
        digits_value(s.drop_last()) * 10 + (s.last() - 48)
    }
}

/// The digit run is characterized by its length: digits up to it, a
/// non-digit (or the end) after it.
proof fn lemma_digit_run_bounds(s: Seq<u8>)
    ensures
        0 <= digit_run(s) <= s.len(),
        forall|i: int| 0 <= i < digit_run(s) ==> is_ascii_digit(#[trigger] s[i]),
        digit_run(s) < s.len() ==> !is_ascii_digit(s[digit_run(s) as int]),
    decreases s.len(),
{
    if s.len() == 0 || !is_ascii_digit(s[0]) {
    } else {
        lemma_digit_run_bounds(s.drop_first());
        assert forall|i: int| 0 <= i < digit_run(s) implies is_ascii_digit(#[trigger] s[i]) by {
            if i > 0 {
                assert(s.drop_first()[i - 1] == s[i]);
            }
        }
        if digit_run(s) < s.len() {
            assert(s.drop_first()[digit_run(s) - 1] == s[digit_run(s) as int]);
        }
    }
}

/// A digit string's value is nonnegative and grows with its length.
proof fn lemma_digits_value_monotone(s: Seq<u8>, i: int, j: int)
    requires
        0 <= i <= j <= s.len(),
        forall|k: int| 0 <= k < s.len() ==> is_ascii_digit(#[trigger] s[k]),
    ensures
        0 <= digits_value(s.take(i)) <= digits_value(s.take(j)),
    decreases j - i,
{
    assert forall|m: int, k: int| 0 <= m <= s.len() && 0 <= k < m implies is_ascii_digit(
        #[trigger] s.take(m)[k],
    ) by {
        assert(s.take(m)[k] == s[k]);
    }
    lemma_digits_value_nonneg(s.take(i));
    if i < j {
        lemma_digits_value_monotone(s, i, j - 1);
        assert(s.take(j).drop_last() =~= s.take(j - 1));
        assert(digits_value(s.take(j)) == digits_value(s.take(j - 1)) * 10 + (s.take(j).last()
            - 48));
        lemma_digits_value_nonneg(s.take(j - 1));
        assert(digits_value(s.take(j - 1)) * 10 >= digits_value(s.take(j - 1))) by (nonlinear_arith)
            requires
                digits_value(s.take(j - 1)) >= 0,
        ;
        assert(s.take(j).last() == s[j - 1]);
    }
}

proof fn lemma_digits_value_nonneg(s: Seq<u8>)
    requires
        forall|k: int| 0 <= k < s.len() ==> is_ascii_digit(#[trigger] s[k]),
    ensures
        digits_value(s) >= 0,
    decreases s.len(),
{
    if s.len() > 0 {
        assert forall|k: int| 0 <= k < s.drop_last().len() implies is_ascii_digit(
            #[trigger] s.drop_last()[k],
        ) by {
            assert(s.drop_last()[k] == s[k]);
        }
        lemma_digits_value_nonneg(s.drop_last());
        assert(digits_value(s.drop_last()) * 10 >= 0) by (nonlinear_arith)
            requires
                digits_value(s.drop_last()) >= 0,
        ;
    }
}

/// What one field of an index token denotes: the leading digit run when it
/// is nonempty and its value fits `u32`, else nothing; and how many bytes
/// the field consumes (a rejected run consumes none).
pub open spec fn field_value(s: Seq<u8>) -> Option<u32> {
    if digit_run(s) > 0 && digits_value(s.take(digit_run(s) as int)) <= u32::MAX {
        Some(digits_value(s.take(digit_run(s) as int)) as u32)
    } else {
        None
    }
}

pub open spec fn field_len(s: Seq<u8>) -> nat {
    if field_value(s) is Some {
        digit_run(s)
    } else {
        0
    }
}

/// The '/'-separated fields of an index token, and the bytes they consume:
/// one field, then, as long as a separator follows, another after it.
pub open spec fn fields_spec(s: Seq<u8>) -> (Seq<Option<u32>>, int)
    decreases s.len(),
{
    let k = field_len(s) as int;
    if k < s.len() && s[k] == 47 {
        let rest = fields_spec(s.skip(k + 1));
        (seq![field_value(s)] + rest.0, k + 1 + rest.1)
    } else {
        (seq![field_value(s)], k)
    }
}

proof fn lemma_fields_bounds(s: Seq<u8>)
    ensures
        fields_spec(s).0.len() >= 1,
        0 <= fields_spec(s).1 <= s.len(),
    decreases s.len(),
{
    lemma_digit_run_bounds(s);
    let k = field_len(s) as int;
    if k < s.len() && s[k] == 47 {
        lemma_fields_bounds(s.skip(k + 1));
    }
}

/// A one-based optional index field: an absent field stays absent, a zero
/// index is rejected.
pub open spec fn spec_field_to_index(f: Option<u32>) -> Option<Option<u32>> {
    match f {
        Option::None => Some(Option::None),
        Option::Some(v) => if v >= 1 {
            Some(Some((v - 1) as u32))
        } else {
            None
        },
    }
}

/// What an index token denotes: its first field is the one-based position
/// index (required and nonzero), the second the texture-coordinate index,
/// the third the normal index; further fields are ignored.
pub open spec fn index_token_spec(s: Seq<u8>) -> Option<(Index, int)> {
    let fields = fields_spec(s).0;
    let consumed = fields_spec(s).1;
    let texcoord0 = if fields.len() > 1 {
        fields[1]
    } else {
        Option::None
    };
    let normal0 = if fields.len() > 2 {
        fields[2]
    } else {
        Option::None
    };
    match (fields[0], spec_field_to_index(texcoord0), spec_field_to_index(normal0)) {
        (Option::Some(p), Option::Some(texcoord), Option::Some(normal)) => if p >= 1 {
            Some((Index { position: (p - 1) as u32, normal, texcoord }, consumed))
        } else {
            None
        },
        _ => None,
    }
}

/// Scans one field starting at `pos`: the maximal digit run, accepted when
/// it is nonempty and fits `u32`.
#[verifier::loop_isolation(false)]
#[verifier::rlimit(30)]
fn parse_field(input: &[u8], pos: usize) -> (r: (Option<u32>, usize))
    requires
        pos <= input@.len(),
    ensures
        r.0 == field_value(input@.skip(pos as int)),
        r.1 == field_len(input@.skip(pos as int)),
        pos + r.1 <= input@.len(),
{
    let ghost s = input@.skip(pos as int);
    proof {
        lemma_digit_run_bounds(s);
    }
    let n = input.len();
    let mut end = pos;
    // Find the end of the digit run.
    while end < n && 48 <= input[end] && input[end] <= 57
        invariant
            pos <= end <= n == input@.len(),
            forall|i: int| 0 <= i < end - pos ==> is_ascii_digit(#[trigger] s[i]),
        decreases n - end,
    {
        proof {
            assert(s[end - pos] == input@[end as int]);
        }
        end = end + 1;
    }
    proof {
        if end - pos < s.len() {
            assert(s[end - pos] == input@[end as int]);
        }
        lemma_run_is_digit_run(s, end - pos);
    }
    if end == pos {
        return (None, 0);
    }
    // Accumulate the value, saturating once it can no longer fit.
    let mut value: u64 = 0;
    let mut overflow = false;
    let mut k = pos;
    while k < end
        invariant
            pos <= k <= end <= n == input@.len(),
            end - pos == digit_run(s),
            forall|i: int| 0 <= i < end - pos ==> is_ascii_digit(#[trigger] s[i]),
            !overflow ==> value == digits_value(s.take(k - pos)) && value <= u32::MAX,
            overflow ==> digits_value(s.take(k - pos)) > u32::MAX,
        decreases end - k,
    {
        let d = input[k];
        proof {
            assert(s[k - pos] == input@[k as int]);
            assert(s.take(k - pos + 1).drop_last() =~= s.take(k - pos));
            assert(s.take(k - pos + 1).last() == s[k - pos]);
            assert forall|i: int| 0 <= i < k - pos implies is_ascii_digit(
                #[trigger] s.take(k - pos)[i],
            ) by {
                assert(s.take(k - pos)[i] == s[i]);
            }
            lemma_digits_value_nonneg(s.take(k - pos));
            if overflow {
                assert(digits_value(s.take(k - pos)) * 10 >= digits_value(s.take(k - pos)))
                    by (nonlinear_arith)
                    requires
                        digits_value(s.take(k - pos)) >= 0,
                ;
            }
        }
        if !overflow {
            value = value * 10 + (d - 48) as u64;
            if value > u32::MAX as u64 {
                overflow = true;
            }
        }
        k = k + 1;
    }
    proof {
        assert(s.take(end - pos) =~= s.take(digit_run(s) as int));
    }
    if overflow {
        (None, 0)
    } else {
        (Some(value as u32), end - pos)
    }
}

/// The scanned run length equals the specified digit run.
proof fn lemma_run_is_digit_run(s: Seq<u8>, run: int)
    requires
        0 <= run <= s.len(),
        forall|i: int| 0 <= i < run ==> is_ascii_digit(#[trigger] s[i]),
        run < s.len() ==> !is_ascii_digit(s[run]),
    ensures
        digit_run(s) == run,
    decreases s.len(),
{
    if s.len() == 0 || !is_ascii_digit(s[0]) {
    } else {
        assert(run > 0);
        assert forall|i: int| 0 <= i < run - 1 implies is_ascii_digit(
            #[trigger] s.drop_first()[i],
        ) by {
            assert(s.drop_first()[i] == s[i + 1]);
        }
        if run - 1 < s.drop_first().len() {
            assert(s.drop_first()[run - 1] == s[run]);
        }
        lemma_run_is_digit_run(s.drop_first(), run - 1);
    }
}

/// Scans the '/'-separated fields of an index token starting at `pos`.
#[verifier::loop_isolation(false)]
fn parse_fields(input: &[u8], pos: usize) -> (r: (Vec<Option<u32>>, usize))
    requires
        pos <= input@.len(),
    ensures
        r.0@ == fields_spec(input@.skip(pos as int)).0,
        r.1 == fields_spec(input@.skip(pos as int)).1,
        pos + r.1 <= input@.len(),
    decreases input@.len() - pos,
{
    let ghost s = input@.skip(pos as int);
    proof {
        lemma_digit_run_bounds(s);
        lemma_fields_bounds(s);
    }
    let n = input.len();
    let (f, k) = parse_field(input, pos);
    let next = pos + k;
    if next < n && input[next] == 47 {
        proof {
            assert(s[next - pos] == input@[next as int]);
            assert(input@.skip(next as int + 1) =~= s.skip(next - pos + 1));
        }
        let (mut fields, rest_len) = parse_fields(input, next + 1);
        fields.insert(0, f);
        proof {
            assert(fields@ =~= seq![f] + fields_spec(s.skip(next - pos + 1)).0);
        }
        (fields, k + 1 + rest_len)
    } else {
        proof {
            if next < n {
                assert(s[next - pos] == input@[next as int]);
            }
            assert(seq![f] =~= fields_spec(s).0);
        }
        let mut fields = Vec::<Option<u32>>::new();
        fields.push(f);
        (fields, k)
    }
}

/// Parses one face-vertex token `position[/texcoord[/normal]]` from the
/// front of `input`: the zero-based index record and the bytes consumed.
/// Nothing is returned exactly when the token denotes no index: the
/// position field is missing, or a present field is zero.
pub fn parse_index(input: &[u8]) -> (r: Option<(Index, usize)>)
    ensures
        r is Some <==> index_token_spec(input@) is Some,
        r matches Some(p) ==> index_token_spec(input@) == Some((p.0, p.1 as int)),
{
    proof {
        assert(input@.skip(0) =~= input@);
        lemma_fields_bounds(input@);
    }
    let (fields, consumed) = parse_fields(input, 0);
    let position = match fields[0] {
        Some(v) => {
            if v == 0 {
                return None;
            }
            v - 1
        },
        None => {
            return None;
        },
    };
    let texcoord = if fields.len() > 1 {
        match fields[1] {
            Some(v) => {
                if v == 0 {
                    return None;
                }
                Some(v - 1)
            },
            None => None,
        }
    } else {
        None
    };
    let normal = if fields.len() > 2 {
        match fields[2] {
            Some(v) => {
                if v == 0 {
                    return None;
                }
                Some(v - 1)
            },
            None => None,
        }
    } else {
        None
    };
    Some((Index { position, normal, texcoord }, consumed))
}

pub struct Mesh<V> {
    pub vertices: Vec<V>,
    pub indices: Vec<u32>,
    pub material: MaterialId,
}

impl<V> Mesh<V> {
    /// The index buffer holds whole triangles and every index names a vertex
    /// of the table.
    pub open spec fn wf(&self) -> bool {
        &&& self.indices@.len() % 3 == 0
        &&& forall|k: int|
            0 <= k < self.indices@.len() ==> (#[trigger] self.indices@[k]) < self.vertices@.len()
    }

    /// The number of triangles the index buffer describes.
    pub open spec fn spec_num_triangles(&self) -> int {
        self.indices@.len() as int / 3
    }

    /// The three corner vertices of the triangle whose corners start at
    /// position `triangle.0` of the index buffer.
    pub fn get_triangle(&self, triangle: TriangleId) -> (r: (&V, &V, &V))
        requires
            self.wf(),
            triangle.0 + 2 < self.indices@.len(),
        ensures
            *r.0 == self.vertices@[self.indices@[triangle.0 as int] as int],
            *r.1 == self.vertices@[self.indices@[triangle.0 as int + 1] as int],
            *r.2 == self.vertices@[self.indices@[triangle.0 as int + 2] as int],
    {
        let _n = self.indices.len();
        let base = triangle.to_index();
        let a = &self.vertices[self.indices[base] as usize];
        let b = &self.vertices[self.indices[base + 1] as usize];
        let c = &self.vertices[self.indices[base + 2] as usize];
        (a, b, c)
    }

    /// The identifiers of all triangles of the mesh, in buffer order: the
    /// identifier of triangle `k` is `3 * k`.
    pub fn iter_triangles(&self) -> (r: Vec<TriangleId>)
        requires
            self.indices@.len() <= u32::MAX,
        ensures
            r@.len() == self.spec_num_triangles(),
            forall|k: int| 0 <= k < r@.len() ==> (#[trigger] r@[k]).0 == 3 * k,
    {
        let count = self.indices.len() / 3;
        let mut ids = Vec::<TriangleId>::new();
        proof {
            vstd::arithmetic::div_mod::lemma_fundamental_div_mod(self.indices@.len() as int, 3);
            vstd::arithmetic::div_mod::lemma_mod_pos_bound(self.indices@.len() as int, 3);
        }
        for k in 0..count
            invariant
                count == self.indices@.len() as int / 3,
                3 * count <= u32::MAX,
                ids@.len() == k,
                forall|m: int| 0 <= m < k ==> (#[trigger] ids@[m]).0 == 3 * m,
        {
            ids.push(TriangleId(3 * (k as u32)));
        }
        ids
    }
}

} // verus!
