//! The AMF3 decoder.
use super::wire::{
    array_at, complex_at, literal_at, members_at, complex_ref, date_at, dict_at, dictionary_at, i29, i32s_at, object_at,
    pairs_at, payload_at, vector_at, vector_object_at, sor_at, str_at, text_at, trait_at,
    u29_at, u32s_at, u64s_at, value_at, values_at, zip, SizeOrIndex, Step, Tables, TraitModel,
    ARRAY, BYTE_ARRAY, DATE, DICTIONARY, DOUBLE, FALSE, INTEGER, NULL, OBJECT, STRING, TRUE,
    U29_LIMIT, UNDEFINED, VECTOR_DOUBLE, VECTOR_INT, VECTOR_OBJECT, VECTOR_UINT, XML, XML_DOC,
};
use super::{dict_view, lemma_dict_view, lemma_pairs_view, lemma_values_view, opt_str_view, pairs_view, values_view, Model, Value};
use crate::bytes::{get32, get64, read_bytes, read_u32, read_u64, read_utf8};
use crate::date::{is_valid_date, millis_from_bits, millis_of};
use crate::error::{DecodeError, ErrorModel};
use crate::Pair;
use vstd::prelude::*;

verus! {

/// A trait: the class name, dynamic flag and sealed member names shared by
/// objects of one shape.
#[derive(Debug)]
struct Trait {
    class_name: Option<String>,
    is_dynamic: bool,
    fields: Vec<String>,
}

pub open spec fn strings_view(s: Seq<String>) -> Seq<Seq<char>> {
    s.map_values(|x: String| x@)
}

impl View for Trait {
    type V = TraitModel;

    closed spec fn view(&self) -> TraitModel {
        TraitModel {
            class_name: opt_str_view(self.class_name),
            is_dynamic: self.is_dynamic,
            fields: strings_view(self.fields@),
        }
    }
}

/// The reference tables of one decoding.
#[derive(Debug)]
pub struct State {
    strings: Vec<String>,
    traits: Vec<Trait>,
    complexes: Vec<Value>,
}

impl View for State {
    type V = Tables;

    closed spec fn view(&self) -> Tables {
        Tables {
            strings: strings_view(self.strings@),
            traits: self.traits@.map_values(|t: Trait| t@),
            complexes: values_view(self.complexes@),
        }
    }
}

/// A decoded item, its end position and the tables after it, against what
/// the wire format says.
pub open spec fn agrees<T, M>(
    r: Result<(T, usize), DecodeError>,
    s: Step<M>,
    v: spec_fn(T) -> M,
    t: Tables,
) -> bool {
    match s {
        Ok((m, p, t2)) => r is Ok && v(r->Ok_0.0) == m && r->Ok_0.1 == p && t == t2,
        Err(e) => r is Err && r->Err_0@ == e,
    }
}

/// The tables grow, and a result ends within the input, past `pos`.
pub open spec fn advances<T>(r: Result<(T, usize), DecodeError>, pos: int, len: int) -> bool {
    r is Ok ==> pos < r->Ok_0.1 <= len
}

/// Prepends `acc` to what a step yields.
pub open spec fn prepend<A>(acc: Seq<A>, s: Step<Seq<A>>) -> Step<Seq<A>> {
    match s {
        Ok((xs, p, t)) => Ok((acc + xs, p, t)),
        Err(e) => Err(e),
    }
}

proof fn lemma_prepend<A>(acc: Seq<A>, x: A, s: Step<Seq<A>>)
    ensures
        prepend(acc, prepend(seq![x], s)) == prepend(acc.push(x), s),
{
    match s {
        Ok((xs, p, t)) => {
            assert(acc + (seq![x] + xs) == acc.push(x) + xs);
        },
        Err(e) => {},
    }
}

impl State {
    pub fn new() -> (r: State)
        ensures
            r@ == Tables::empty(),
    {
        let r = State { strings: Vec::new(), traits: Vec::new(), complexes: Vec::new() };
        assert(r@.strings == Seq::<Seq<char>>::empty());
        assert(r@.traits == Seq::<TraitModel>::empty());
        r
    }

    fn push_string(&mut self, s: String)
        ensures
            final(self)@ == (Tables { strings: old(self)@.strings.push(s@), ..old(self)@ }),
    {
        self.strings.push(s);
        assert(strings_view(self.strings@) == strings_view(old(self).strings@).push(s@));
    }

    fn push_trait(&mut self, t: Trait)
        ensures
            final(self)@ == (Tables { traits: old(self)@.traits.push(t@), ..old(self)@ }),
    {
        self.traits.push(t);
        assert(self.traits@.map_values(|t: Trait| t@) == old(self).traits@.map_values(
            |t: Trait| t@,
        ).push(t@));
    }

    fn push_complex(&mut self, v: Value)
        ensures
            final(self)@ == (Tables { complexes: old(self)@.complexes.push(v@), ..old(self)@ }),
    {
        self.complexes.push(v);
        assert(self.complexes@.drop_last() == old(self).complexes@);
    }

    fn set_complex(&mut self, i: usize, v: Value)
        requires
            i < old(self)@.complexes.len(),
        ensures
            final(self)@ == (Tables {
                complexes: old(self)@.complexes.update(i as int, v@),
                ..old(self)@
            }),
    {
        proof {
            lemma_values_view(self.complexes@);
        }
        self.complexes.set(i, v);
        proof {
            lemma_values_view(self.complexes@);
            assert(values_view(self.complexes@) == values_view(old(self).complexes@).update(
                i as int,
                v@,
            ));
        }
    }

    fn string_at(&self, i: usize) -> (r: Option<String>)
        ensures
            i < self@.strings.len() ==> r is Some && r->Some_0@ == self@.strings[i as int],
            i >= self@.strings.len() ==> r is None,
    {
        if i < self.strings.len() {
            Some(self.strings[i].clone())
        } else {
            None
        }
    }

    fn trait_at(&self, i: usize) -> (r: Option<Trait>)
        ensures
            i < self@.traits.len() ==> r is Some && r->Some_0@ == self@.traits[i as int],
            i >= self@.traits.len() ==> r is None,
    {
        if i < self.traits.len() {
            let t = &self.traits[i];
            Some(Trait { class_name: copy_name(&t.class_name), is_dynamic: t.is_dynamic, fields: copy_strings(&t.fields) })
        } else {
            None
        }
    }

    fn complex_at(&self, i: usize, p: usize) -> (r: Result<(Value, usize), DecodeError>)
        ensures
            agrees(r, complex_ref(i as nat, p as int, self@), |v: Value| v@, self@),
    {
        proof {
            lemma_values_view(self.complexes@);
        }
        if i >= self.complexes.len() {
            Err(DecodeError::OutOfRangeReference { index: i })
        } else if matches!(self.complexes[i], Value::Null) {
            Err(DecodeError::CircularReference { index: i })
        } else {
            Ok((self.complexes[i].clone(), p))
        }
    }

    fn complexes_len(&self) -> (r: usize)
        ensures
            r == self@.complexes.len(),
    {
        proof {
            lemma_values_view(self.complexes@);
        }
        self.complexes.len()
    }
}

fn copy_name(n: &Option<String>) -> (r: Option<String>)
    ensures
        opt_str_view(r) == opt_str_view(*n),
{
    match n {
        Some(s) => Some(s.clone()),
        None => None,
    }
}

fn copy_strings(v: &Vec<String>) -> (r: Vec<String>)
    ensures
        strings_view(r@) == strings_view(v@),
{
    let mut r: Vec<String> = Vec::new();
    let mut i: usize = 0;
    while i < v.len()
        invariant
            i <= v@.len(),
            r@ == v@.subrange(0, i as int),
        decreases v@.len() - i,
    {
        r.push(v[i].clone());
        i += 1;
        assert(r@ =~= v@.subrange(0, i as int));
    }
    assert(v@.subrange(0, i as int) == v@);
    r
}

/// The variable-length integer at `pos`.
fn decode_u29(buf: &[u8], pos: usize) -> (r: Result<(u32, usize), DecodeError>)
    requires
        pos <= buf@.len(),
    ensures
        match u29_at(buf@, pos as int) {
            Ok((u, p)) => r is Ok && r->Ok_0.0 == u && r->Ok_0.1 == p && pos < p <= buf@.len() && u
                < U29_LIMIT,
            Err(e) => r is Err && r->Err_0@ == e,
        },
{
    proof {
        reveal(u29_at);
    }
    let len = buf.len();
    if pos >= len {
        return Err(DecodeError::UnexpectedEof);
    }
    let b0 = buf[pos];
    if b0 < 0x80 {
        return Ok((b0 as u32, pos + 1));
    }
    if pos + 1 >= len {
        return Err(DecodeError::UnexpectedEof);
    }
    let b1 = buf[pos + 1];
    let n1 = (((b0 & 0x7F) as u32) << 7) | ((b1 & 0x7F) as u32);
    assert(n1 < 0x4000) by (bit_vector)
        requires
            n1 == (((b0 & 0x7F) as u32) << 7) | ((b1 & 0x7F) as u32),
    ;
    if b1 < 0x80 {
        return Ok((n1, pos + 2));
    }
    if pos + 2 >= len {
        return Err(DecodeError::UnexpectedEof);
    }
    let b2 = buf[pos + 2];
    let n2 = (n1 << 7) | ((b2 & 0x7F) as u32);
    assert(n2 < 0x20_0000) by (bit_vector)
        requires
            n1 < 0x4000,
            n2 == (n1 << 7) | ((b2 & 0x7F) as u32),
    ;
    if b2 < 0x80 {
        return Ok((n2, pos + 3));
    }
    if pos + 3 >= len {
        return Err(DecodeError::UnexpectedEof);
    }
    let b3 = buf[pos + 3];
    let n3 = (n2 << 8) | (b3 as u32);
    assert(n3 < 0x2000_0000) by (bit_vector)
        requires
            n2 < 0x20_0000,
            n3 == (n2 << 8) | (b3 as u32),
    ;
    Ok((n3, pos + 4))
}

fn decode_size_or_index(buf: &[u8], pos: usize) -> (r: Result<(SizeOrIndex, usize), DecodeError>)
    requires
        pos <= buf@.len(),
    ensures
        match sor_at(buf@, pos as int) {
            Ok((s, p)) => r is Ok && r->Ok_0.0 == s && r->Ok_0.1 == p && pos < p <= buf@.len(),
            Err(e) => r is Err && r->Err_0@ == e,
        },
        r is Ok ==> match r->Ok_0.0 {
            SizeOrIndex::Size(n) => n < 0x1000_0000,
            SizeOrIndex::Index(i) => i < 0x1000_0000,
        },
{
    match decode_u29(buf, pos) {
        Err(e) => Err(e),
        Ok((u, p)) => {
            let half = (u / 2) as usize;
            if u % 2 == 0 {
                Ok((SizeOrIndex::Index(half), p))
            } else {
                Ok((SizeOrIndex::Size(half), p))
            }
        },
    }
}

/// The text of the `n` bytes at `pos`.
fn read_text(buf: &[u8], pos: usize, n: usize) -> (r: Result<(String, usize), DecodeError>)
    requires
        pos <= buf@.len(),
    ensures
        match text_at(buf@, pos as int, n as int) {
            Ok((s, p)) => r is Ok && r->Ok_0.0@ == s && r->Ok_0.1 == p && p <= buf@.len(),
            Err(e) => r is Err && r->Err_0@ == e,
        },
{
    if n > buf.len() - pos {
        return Err(DecodeError::UnexpectedEof);
    }
    match read_utf8(buf, pos, n) {
        None => Err(DecodeError::String),
        Some(s) => Ok((s, pos + n)),
    }
}

/// A string, as a literal or as a reference into the string table.
fn decode_utf8(buf: &[u8], pos: usize, st: &mut State) -> (r: Result<(String, usize), DecodeError>)
    requires
        pos <= buf@.len(),
    ensures
        agrees(r, str_at(buf@, pos as int, old(st)@), |s: String| s@, final(st)@),
        advances(r, pos as int, buf@.len() as int),
        r is Ok ==> final(st)@.extends(old(st)@),
{
    match decode_size_or_index(buf, pos) {
        Err(e) => Err(e),
        Ok((SizeOrIndex::Index(i), p1)) => match st.string_at(i) {
            Some(s) => Ok((s, p1)),
            None => Err(DecodeError::OutOfRangeReference { index: i }),
        },
        Ok((SizeOrIndex::Size(n), p1)) => match read_text(buf, p1, n) {
            Err(e) => Err(e),
            Ok((s, p2)) => {
                if !s.as_str().is_empty() {
                    st.push_string(s.clone());
                }
                Ok((s, p2))
            },
        },
    }
}

/// The trait of an object, from the bits after the object's literal flag.
fn decode_trait(u: usize, buf: &[u8], pos: usize, st: &mut State) -> (r: Result<(Trait, usize), DecodeError>)
    requires
        pos <= buf@.len(),
    ensures
        agrees(r, trait_at(u as nat, buf@, pos as int, old(st)@), |t: Trait| t@, final(st)@),
        r is Ok ==> pos <= r->Ok_0.1 <= buf@.len(),
        r is Ok ==> final(st)@.extends(old(st)@),
{
    if u % 2 == 0 {
        let i = u / 2;
        match st.trait_at(i) {
            Some(t) => Ok((t, pos)),
            None => Err(DecodeError::OutOfRangeReference { index: i }),
        }
    } else if (u / 2) % 2 == 1 {
        match decode_utf8(buf, pos, st) {
            Err(e) => Err(e),
            Ok((name, _)) => Err(DecodeError::ExternalizableType { name }),
        }
    } else {
        let is_dynamic = (u / 4) % 2 == 1;
        let field_num = u / 8;
        assert(field_num as nat == (u as nat) / 8);
        match decode_utf8(buf, pos, st) {
            Err(e) => Err(e),
            Ok((class_name, p1)) => {
                let ghost t1 = st@;
                let mut fields: Vec<String> = Vec::new();
                let mut p = p1;
                let mut k: usize = 0;
                while k < field_num
                    invariant
                        k <= field_num,
                        p1 <= p <= buf@.len(),
                        pos < p1,
                        u % 2 == 1,
                        (u / 2) % 2 == 0,
                        field_num as nat == (u as nat) / 8,
                        str_at(buf@, pos as int, old(st)@) == Ok::<(Seq<char>, int, Tables), ErrorModel>((class_name@, p1 as int, t1)),
                        t1.extends(old(st)@),
                        st@.extends(old(st)@),
                        crate::amf3::wire::strs_at(field_num as nat, buf@, p1 as int, t1)
                            == prepend(
                            strings_view(fields@),
                            crate::amf3::wire::strs_at((field_num - k) as nat, buf@, p as int, st@),
                        ),
                    decreases field_num - k,
                {
                    let ghost before = st@;
                    let ghost acc = fields@;
                    match decode_utf8(buf, p, st) {
                        Err(e) => {
                            assert(crate::amf3::wire::strs_at((field_num - k) as nat, buf@, p as int, before) == Err::<(Seq<Seq<char>>, int, Tables), ErrorModel>(e@));
                            return Err(e);
                        },
                        Ok((s, p2)) => {
                            proof {
                                lemma_prepend(strings_view(fields@), s@, crate::amf3::wire::strs_at(
                                    (field_num - k - 1) as nat, buf@, p2 as int, st@));
                            }
                            fields.push(s);
                            assert(strings_view(fields@) =~= strings_view(acc).push(s@));
                            p = p2;
                            k += 1;
                        },
                    }
                }
                let class_name = if class_name.as_str().is_empty() {
                    None
                } else {
                    Some(class_name)
                };
                let t = Trait { class_name, is_dynamic, fields };
                let copy = Trait { class_name: copy_name(&t.class_name), is_dynamic, fields: copy_strings(&t.fields) };
                st.push_trait(copy);
                Ok((t, p))
            },
        }
    }
}

/// Whether a date's milliseconds are finite and carry a positive sign.
fn is_valid_date_bits(bits: u64) -> (r: bool)
    ensures
        r == is_valid_date(bits),
{
    bits >> 63 == 0 && (bits >> 52) & 0x7FF != 0x7FF
}

/// The value at `pos`.
fn decode_value(buf: &[u8], pos: usize, st: &mut State) -> (r: Result<(Value, usize), DecodeError>)
    requires
        pos <= buf@.len(),
    ensures
        agrees(r, value_at(buf@, pos as int, old(st)@), |v: Value| v@, final(st)@),
        advances(r, pos as int, buf@.len() as int),
        r is Ok ==> final(st)@.extends(old(st)@),
    decreases buf@.len() - pos, 1int,
{
    if pos >= buf.len() {
        return Err(DecodeError::UnexpectedEof);
    }
    let marker = buf[pos];
    if marker == UNDEFINED {
        Ok((Value::Undefined, pos + 1))
    } else if marker == NULL {
        Ok((Value::Null, pos + 1))
    } else if marker == FALSE {
        Ok((Value::Boolean(false), pos + 1))
    } else if marker == TRUE {
        Ok((Value::Boolean(true), pos + 1))
    } else if marker == INTEGER {
        decode_integer(buf, pos)
    } else if marker == DOUBLE {
        if buf.len() - pos < 9 {
            Err(DecodeError::UnexpectedEof)
        } else {
            Ok((Value::Double(read_u64(buf, pos + 1)), pos + 9))
        }
    } else if marker == STRING {
        match decode_utf8(buf, pos + 1, st) {
            Err(e) => Err(e),
            Ok((s, p)) => Ok((Value::String(s), p)),
        }
    } else if XML_DOC <= marker && marker <= DICTIONARY {
        decode_complex_type(marker, buf, pos, st)
    } else {
        Err(DecodeError::Unknown { marker })
    }
}

fn decode_integer(buf: &[u8], pos: usize) -> (r: Result<(Value, usize), DecodeError>)
    requires
        pos < buf@.len(),
        buf@[pos as int] == INTEGER,
    ensures
        match value_at(buf@, pos as int, Tables::empty()) {
            Ok((v, p, _)) => r is Ok && r->Ok_0.0@ == v && r->Ok_0.1 == p && pos < p <= buf@.len(),
            Err(e) => r is Err && r->Err_0@ == e,
        },
{
    if pos >= buf.len() {
        return Err(DecodeError::UnexpectedEof);
    }
    match decode_u29(buf, pos + 1) {
        Err(e) => Err(e),
        Ok((u, p)) => {
            let n = if u >= 0x1000_0000 {
                (u as i32) - 0x2000_0000
            } else {
                u as i32
            };
            Ok((Value::Integer(n), p))
        },
    }
}

/// A complex value: a reference into the table of complex values, or a
/// literal whose slot in that table is taken before its payload is read, so
/// that a reference to it from inside is found circular.
fn decode_complex_type(marker: u8, buf: &[u8], pos: usize, st: &mut State) -> (r: Result<
    (Value, usize),
    DecodeError,
>)
    requires
        pos < buf@.len(),
        buf@[pos as int] == marker,
        XML_DOC <= marker <= DICTIONARY,
    ensures
        agrees(r, complex_at(marker, buf@, pos as int, old(st)@), |v: Value| v@, final(st)@),
        advances(r, pos as int, buf@.len() as int),
        r is Ok ==> final(st)@.extends(old(st)@),
    decreases buf@.len() - pos, 0int,
{
    if pos >= buf.len() {
        return Err(DecodeError::UnexpectedEof);
    }
    match decode_size_or_index(buf, pos + 1) {
        Err(e) => Err(e),
        Ok((SizeOrIndex::Index(i), p1)) => st.complex_at(i, p1),
        Ok((SizeOrIndex::Size(n), p1)) => decode_literal(marker, n, buf, p1, st),
    }
}

fn decode_literal(marker: u8, n: usize, buf: &[u8], pos: usize, st: &mut State) -> (r: Result<
    (Value, usize),
    DecodeError,
>)
    requires
        pos <= buf@.len(),
        n < 0x1000_0000,
    ensures
        agrees(r, literal_at(marker, n as nat, buf@, pos as int, old(st)@), |v: Value| v@, final(st)@),
        r is Ok ==> pos <= r->Ok_0.1 <= buf@.len(),
        r is Ok ==> final(st)@.extends(old(st)@),
    decreases buf@.len() - pos, 6int,
{
    let idx = st.complexes_len();
    st.push_complex(Value::Null);
    match decode_payload(marker, n, buf, pos, st) {
        Err(e) => Err(e),
        Ok((v, p2)) => {
            let copy = v.clone();
            st.set_complex(idx, copy);
            Ok((v, p2))
        },
    }
}

/// The payload of a literal complex value.
fn decode_payload(marker: u8, n: usize, buf: &[u8], pos: usize, st: &mut State) -> (r: Result<
    (Value, usize),
    DecodeError,
>)
    requires
        pos <= buf@.len(),
        n < 0x1000_0000,
    ensures
        agrees(r, payload_at(marker, n as nat, buf@, pos as int, old(st)@), |v: Value| v@, final(st)@),
        r is Ok ==> pos <= r->Ok_0.1 <= buf@.len(),
        r is Ok ==> final(st)@.extends(old(st)@),
    decreases buf@.len() - pos, 5int,
{
    if marker == XML_DOC || marker == XML {
        match read_text(buf, pos, n) {
            Err(e) => Err(e),
            Ok((s, p)) => if marker == XML_DOC {
                Ok((Value::XmlDocument(s), p))
            } else {
                Ok((Value::Xml(s), p))
            },
        }
    } else if marker == DATE {
        decode_date(buf, pos)
    } else if marker == ARRAY {
        decode_array(n, buf, pos, st)
    } else if marker == OBJECT {
        decode_object(n, buf, pos, st)
    } else if marker == BYTE_ARRAY {
        if n > buf.len() - pos {
            Err(DecodeError::UnexpectedEof)
        } else {
            Ok((Value::ByteArray(read_bytes(buf, pos, n)), pos + n))
        }
    } else if marker == VECTOR_INT || marker == VECTOR_UINT {
        decode_vector_32(marker, n, buf, pos)
    } else if marker == VECTOR_DOUBLE {
        decode_vector_double(n, buf, pos)
    } else if marker == VECTOR_OBJECT {
        decode_vector_object(n, buf, pos, st)
    } else {
        decode_dictionary(n, buf, pos, st)
    }
}

fn decode_date(buf: &[u8], pos: usize) -> (r: Result<(Value, usize), DecodeError>)
    requires
        pos <= buf@.len(),
    ensures
        match date_at(buf@, pos as int, Tables::empty()) {
            Ok((v, p, _)) => r is Ok && r->Ok_0.0@ == v && r->Ok_0.1 == p && p <= buf@.len(),
            Err(e) => r is Err && r->Err_0@ == e,
        },
{
    if buf.len() - pos < 8 {
        return Err(DecodeError::UnexpectedEof);
    }
    let millis = read_u64(buf, pos);
    if !is_valid_date_bits(millis) {
        Err(DecodeError::InvalidDate { millis })
    } else {
        Ok((Value::Date { unix_time: millis_from_bits(millis) }, pos + 8))
    }
}

fn decode_vector_32(marker: u8, n: usize, buf: &[u8], pos: usize) -> (r: Result<(Value, usize), DecodeError>)
    requires
        pos <= buf@.len(),
        n < 0x1000_0000,
        marker == VECTOR_INT || marker == VECTOR_UINT,
    ensures
        match vector_at(marker, n as nat, buf@, pos as int, Tables::empty()) {
            Ok((v, p, _)) => r is Ok && r->Ok_0.0@ == v && r->Ok_0.1 == p && p <= buf@.len(),
            Err(e) => r is Err && r->Err_0@ == e,
        },
{
    if buf.len() - pos < 1 || (buf.len() - pos - 1) / 4 < n {
        return Err(DecodeError::UnexpectedEof);
    }
    let is_fixed = buf[pos] != 0;
    let start = pos + 1;
    let len = buf.len();
    if marker == VECTOR_INT {
        let mut entries: Vec<i32> = Vec::new();
        let mut i: usize = 0;
        while i < n
            invariant
                i <= n,
                start + 4 * n <= buf@.len(),
                len == buf@.len(),
                start == pos + 1,
                entries@ == i32s_at(buf@, start as int, i as nat),
            decreases n - i,
        {
            entries.push(#[verifier::truncate] (read_u32(buf, start + 4 * i) as i32));
            i += 1;
            assert(entries@ =~= i32s_at(buf@, start as int, i as nat));
        }
        Ok((Value::IntVector { is_fixed, entries }, start + 4 * n))
    } else {
        let mut entries: Vec<u32> = Vec::new();
        let mut i: usize = 0;
        while i < n
            invariant
                i <= n,
                start + 4 * n <= buf@.len(),
                len == buf@.len(),
                start == pos + 1,
                entries@ == u32s_at(buf@, start as int, i as nat),
            decreases n - i,
        {
            entries.push(read_u32(buf, start + 4 * i));
            i += 1;
            assert(entries@ =~= u32s_at(buf@, start as int, i as nat));
        }
        Ok((Value::UintVector { is_fixed, entries }, start + 4 * n))
    }
}

fn decode_vector_double(n: usize, buf: &[u8], pos: usize) -> (r: Result<(Value, usize), DecodeError>)
    requires
        pos <= buf@.len(),
        n < 0x1000_0000,
    ensures
        match vector_at(VECTOR_DOUBLE, n as nat, buf@, pos as int, Tables::empty()) {
            Ok((v, p, _)) => r is Ok && r->Ok_0.0@ == v && r->Ok_0.1 == p && p <= buf@.len(),
            Err(e) => r is Err && r->Err_0@ == e,
        },
{
    if buf.len() - pos < 1 || (buf.len() - pos - 1) / 8 < n {
        return Err(DecodeError::UnexpectedEof);
    }
    let is_fixed = buf[pos] != 0;
    let start = pos + 1;
    let len = buf.len();
    let mut entries: Vec<u64> = Vec::new();
    let mut i: usize = 0;
    while i < n
        invariant
            i <= n,
            start + 8 * n <= buf@.len(),
            len == buf@.len(),
            start == pos + 1,
            entries@ == u64s_at(buf@, start as int, i as nat),
        decreases n - i,
    {
        entries.push(read_u64(buf, start + 8 * i));
        i += 1;
        assert(entries@ =~= u64s_at(buf@, start as int, i as nat));
    }
    Ok((Value::DoubleVector { is_fixed, entries }, start + 8 * n))
}

/// `n` values in a row.
fn decode_values(n: usize, buf: &[u8], pos: usize, st: &mut State) -> (r: Result<
    (Vec<Value>, usize),
    DecodeError,
>)
    requires
        pos <= buf@.len(),
    ensures
        agrees(r, values_at(n as nat, buf@, pos as int, old(st)@), |v: Vec<Value>| values_view(v@), final(st)@),
        r is Ok ==> pos <= r->Ok_0.1 <= buf@.len() && r->Ok_0.0@.len() == n,
        r is Ok ==> final(st)@.extends(old(st)@),
    decreases buf@.len() - pos, 2int,
{
    let mut vs: Vec<Value> = Vec::new();
    let mut p = pos;
    let mut i: usize = 0;
    while i < n
        invariant
            i <= n,
            vs@.len() == i,
            pos <= p <= buf@.len(),
            st@.extends(old(st)@),
            values_at(n as nat, buf@, pos as int, old(st)@) == prepend(
                values_view(vs@),
                values_at((n - i) as nat, buf@, p as int, st@),
            ),
        decreases n - i,
    {
        let ghost acc = vs@;
        let ghost before = st@;
        match decode_value(buf, p, st) {
            Err(e) => {
                assert(values_at((n - i) as nat, buf@, p as int, before) == Err::<(Seq<Model>, int, Tables), ErrorModel>(e@));
                return Err(e);
            },
            Ok((v, p2)) => {
                proof {
                    lemma_prepend(values_view(acc), v@, values_at((n - i - 1) as nat, buf@, p2 as int, st@));
                }
                vs.push(v);
                assert(vs@.drop_last() == acc);
                p = p2;
                i += 1;
            },
        }
    }
    Ok((vs, p))
}

/// Key-value pairs up to the empty key.
fn decode_pairs(buf: &[u8], pos: usize, st: &mut State) -> (r: Result<
    (Vec<Pair<String, Value>>, usize),
    DecodeError,
>)
    requires
        pos <= buf@.len(),
    ensures
        agrees(r, pairs_at(buf@, pos as int, old(st)@), |v: Vec<Pair<String, Value>>| pairs_view(v@), final(st)@),
        r is Ok ==> pos <= r->Ok_0.1 <= buf@.len(),
        r is Ok ==> final(st)@.extends(old(st)@),
    decreases buf@.len() - pos, 2int,
{
    let mut ps: Vec<Pair<String, Value>> = Vec::new();
    let mut p = pos;
    loop
        invariant
            pos <= p <= buf@.len(),
            st@.extends(old(st)@),
            pairs_at(buf@, pos as int, old(st)@) == prepend(pairs_view(ps@), pairs_at(buf@, p as int, st@)),
        decreases buf@.len() - p,
    {
        let ghost acc = ps@;
        let ghost before = st@;
        match decode_utf8(buf, p, st) {
            Err(e) => {
                assert(pairs_at(buf@, p as int, before) == Err::<(Seq<(Seq<char>, Model)>, int, Tables), ErrorModel>(e@));
                return Err(e);
            },
            Ok((key, p1)) => {
                if key.as_str().is_empty() {
                    assert(pairs_view(ps@) + Seq::empty() == pairs_view(ps@));
                    return Ok((ps, p1));
                }
                let ghost mid = st@;
                match decode_value(buf, p1, st) {
                    Err(e) => {
                        assert(pairs_at(buf@, p as int, before) == Err::<(Seq<(Seq<char>, Model)>, int, Tables), ErrorModel>(e@));
                        return Err(e);
                    },
                    Ok((v, p2)) => {
                        proof {
                            lemma_prepend(pairs_view(acc), (key@, v@), pairs_at(buf@, p2 as int, st@));
                        }
                        ps.push(Pair { key, value: v });
                        assert(ps@.drop_last() == acc);
                        p = p2;
                    },
                }
            },
        }
    }
}

/// `n` key-value pairs of values.
fn decode_entries(n: usize, buf: &[u8], pos: usize, st: &mut State) -> (r: Result<
    (Vec<Pair<Value, Value>>, usize),
    DecodeError,
>)
    requires
        pos <= buf@.len(),
    ensures
        agrees(r, dict_at(n as nat, buf@, pos as int, old(st)@), |v: Vec<Pair<Value, Value>>| dict_view(v@), final(st)@),
        r is Ok ==> pos <= r->Ok_0.1 <= buf@.len(),
        r is Ok ==> final(st)@.extends(old(st)@),
    decreases buf@.len() - pos, 2int,
{
    let mut es: Vec<Pair<Value, Value>> = Vec::new();
    let mut p = pos;
    let mut i: usize = 0;
    while i < n
        invariant
            i <= n,
            pos <= p <= buf@.len(),
            st@.extends(old(st)@),
            dict_at(n as nat, buf@, pos as int, old(st)@) == prepend(
                dict_view(es@),
                dict_at((n - i) as nat, buf@, p as int, st@),
            ),
        decreases n - i,
    {
        let ghost acc = es@;
        let ghost before = st@;
        match decode_value(buf, p, st) {
            Err(e) => {
                assert(dict_at((n - i) as nat, buf@, p as int, before) == Err::<(Seq<(Model, Model)>, int, Tables), ErrorModel>(e@));
                return Err(e);
            },
            Ok((k, p1)) => {
                match decode_value(buf, p1, st) {
                    Err(e) => {
                        assert(dict_at((n - i) as nat, buf@, p as int, before) == Err::<(Seq<(Model, Model)>, int, Tables), ErrorModel>(e@));
                        return Err(e);
                    },
                    Ok((v, p2)) => {
                        proof {
                            lemma_prepend(dict_view(acc), (k@, v@), dict_at((n - i - 1) as nat, buf@, p2 as int, st@));
                        }
                        es.push(Pair { key: k, value: v });
                        assert(es@.drop_last() == acc);
                        p = p2;
                        i += 1;
                    },
                }
            },
        }
    }
    Ok((es, p))
}

fn decode_array(n: usize, buf: &[u8], pos: usize, st: &mut State) -> (r: Result<(Value, usize), DecodeError>)
    requires
        pos <= buf@.len(),
        n < 0x1000_0000,
    ensures
        agrees(r, array_at(n as nat, buf@, pos as int, old(st)@), |v: Value| v@, final(st)@),
        r is Ok ==> pos <= r->Ok_0.1 <= buf@.len(),
        r is Ok ==> final(st)@.extends(old(st)@),
    decreases buf@.len() - pos, 4int,
{
    match decode_pairs(buf, pos, st) {
        Err(e) => Err(e),
        Ok((assoc_entries, p1)) => match decode_values(n, buf, p1, st) {
            Err(e) => Err(e),
            Ok((dense_entries, p2)) => Ok((Value::Array { assoc_entries, dense_entries }, p2)),
        },
    }
}

fn decode_vector_object(n: usize, buf: &[u8], pos: usize, st: &mut State) -> (r: Result<
    (Value, usize),
    DecodeError,
>)
    requires
        pos <= buf@.len(),
        n < 0x1000_0000,
    ensures
        agrees(r, vector_object_at(n as nat, buf@, pos as int, old(st)@), |v: Value| v@, final(st)@),
        r is Ok ==> pos <= r->Ok_0.1 <= buf@.len(),
        r is Ok ==> final(st)@.extends(old(st)@),
    decreases buf@.len() - pos, 4int,
{
    if buf.len() - pos < 1 {
        return Err(DecodeError::UnexpectedEof);
    }
    let is_fixed = buf[pos] != 0;
    match decode_utf8(buf, pos + 1, st) {
        Err(e) => Err(e),
        Ok((name, p1)) => match decode_values(n, buf, p1, st) {
            Err(e) => Err(e),
            Ok((entries, p2)) => {
                let any = "*".to_owned();
                proof {
                    reveal_strlit("*");
                    assert(any@ =~= seq!['*']);
                }
                let class_name = if name == any {
                    None
                } else {
                    Some(name)
                };
                Ok((Value::ObjectVector { class_name, is_fixed, entries }, p2))
            },
        },
    }
}

fn decode_dictionary(n: usize, buf: &[u8], pos: usize, st: &mut State) -> (r: Result<
    (Value, usize),
    DecodeError,
>)
    requires
        pos <= buf@.len(),
        n < 0x1000_0000,
    ensures
        agrees(r, dictionary_at(n as nat, buf@, pos as int, old(st)@), |v: Value| v@, final(st)@),
        r is Ok ==> pos <= r->Ok_0.1 <= buf@.len(),
        r is Ok ==> final(st)@.extends(old(st)@),
    decreases buf@.len() - pos, 4int,
{
    if buf.len() - pos < 1 {
        return Err(DecodeError::UnexpectedEof);
    }
    let is_weak = buf[pos] == 1;
    match decode_entries(n, buf, pos + 1, st) {
        Err(e) => Err(e),
        Ok((entries, p)) => Ok((Value::Dictionary { is_weak, entries }, p)),
    }
}

/// Names paired with values, position by position.
fn zip_members(fields: &Vec<String>, vals: &Vec<Value>) -> (r: Vec<Pair<String, Value>>)
    requires
        vals@.len() == fields@.len(),
    ensures
        pairs_view(r@) == zip(strings_view(fields@), values_view(vals@)),
{
    proof {
        lemma_values_view(vals@);
    }
    let mut entries: Vec<Pair<String, Value>> = Vec::new();
    let mut i: usize = 0;
    while i < fields.len()
        invariant
            i <= fields@.len(),
            vals@.len() == fields@.len(),
            values_view(vals@).len() == vals@.len(),
            forall|j: int| 0 <= j < vals@.len() ==> #[trigger] values_view(vals@)[j] == vals@[j]@,
            entries@.len() == i,
            forall|j: int|
                0 <= j < i ==> (#[trigger] entries@[j]).key@ == fields@[j]@ && entries@[j].value@
                    == vals@[j]@,
        decreases fields@.len() - i,
    {
        entries.push(Pair { key: fields[i].clone(), value: vals[i].clone() });
        i += 1;
    }
    proof {
        lemma_pairs_view(entries@);
        assert(pairs_view(entries@) =~= zip(strings_view(fields@), values_view(vals@)));
    }
    entries
}

proof fn lemma_pairs_view_append(a: Seq<Pair<String, Value>>, b: Seq<Pair<String, Value>>)
    ensures
        pairs_view(a + b) == pairs_view(a) + pairs_view(b),
{
    lemma_pairs_view(a);
    lemma_pairs_view(b);
    lemma_pairs_view(a + b);
    assert(pairs_view(a + b) =~= pairs_view(a) + pairs_view(b));
}

fn decode_object(n: usize, buf: &[u8], pos: usize, st: &mut State) -> (r: Result<(Value, usize), DecodeError>)
    requires
        pos <= buf@.len(),
        n < 0x1000_0000,
    ensures
        agrees(r, object_at(n as nat, buf@, pos as int, old(st)@), |v: Value| v@, final(st)@),
        r is Ok ==> pos <= r->Ok_0.1 <= buf@.len(),
        r is Ok ==> final(st)@.extends(old(st)@),
    decreases buf@.len() - pos, 4int,
{
    match decode_trait(n, buf, pos, st) {
        Err(e) => Err(e),
        Ok((tr, p1)) => decode_members(tr, buf, p1, st),
    }
}

/// The members of an object of trait `tr`: the values of its sealed
/// members, then, for a dynamic trait, key-value pairs up to the empty key.
fn decode_members(tr: Trait, buf: &[u8], pos: usize, st: &mut State) -> (r: Result<(Value, usize), DecodeError>)
    requires
        pos <= buf@.len(),
    ensures
        agrees(r, members_at(tr@, buf@, pos as int, old(st)@), |v: Value| v@, final(st)@),
        r is Ok ==> pos <= r->Ok_0.1 <= buf@.len(),
        r is Ok ==> final(st)@.extends(old(st)@),
    decreases buf@.len() - pos, 3int,
{
    proof {
        assert(strings_view(tr.fields@).len() == tr.fields@.len());
    }
    match decode_values(tr.fields.len(), buf, pos, st) {
        Err(e) => Err(e),
        Ok((vals, p2)) => {
            let mut entries = zip_members(&tr.fields, &vals);
            let sealed_count = tr.fields.len();
            let class_name = tr.class_name;
            if !tr.is_dynamic {
                Ok((Value::Object { class_name, sealed_count, entries }, p2))
            } else {
                match decode_pairs(buf, p2, st) {
                    Err(e) => Err(e),
                    Ok((dynamic, p3)) => {
                        let ghost sealed = entries@;
                        let mut dynamic = dynamic;
                        let ghost dy = dynamic@;
                        entries.append(&mut dynamic);
                        proof {
                            lemma_pairs_view_append(sealed, dy);
                        }
                        Ok((Value::Object { class_name, sealed_count, entries }, p3))
                    },
                }
            }
        },
    }
}

/// The value at the start of `bytes`, decoded with empty reference tables.
pub fn decode_bytes(bytes: &[u8]) -> (r: Result<(Value, usize), DecodeError>)
    ensures
        match value_at(bytes@, 0, Tables::empty()) {
            Ok((v, p, _)) => r is Ok && r->Ok_0.0@ == v && r->Ok_0.1 == p,
            Err(e) => r is Err && r->Err_0@ == e,
        },
{
    let mut st = State::new();
    decode_value(bytes, 0, &mut st)
}

/// Decodes the value at `pos` of `buf` with the tables of `st`.
pub fn decode_at(buf: &[u8], pos: usize, st: &mut State) -> (r: Result<(Value, usize), DecodeError>)
    requires
        pos <= buf@.len(),
    ensures
        agrees(r, value_at(buf@, pos as int, old(st)@), |v: Value| v@, final(st)@),
        advances(r, pos as int, buf@.len() as int),
{
    decode_value(buf, pos, st)
}

/// AMF3 decoder: reads values one after the other from a byte vector.
#[derive(Debug)]
pub struct Decoder {
    inner: Vec<u8>,
    pos: usize,
}

impl Decoder {
    /// The bytes being decoded.
    pub closed spec fn input(&self) -> Seq<u8> {
        self.inner@
    }

    /// The position of the next value.
    pub closed spec fn position(&self) -> int {
        self.pos as int
    }

    #[verifier::type_invariant]
    spec fn inv(&self) -> bool {
        self.pos <= self.inner@.len()
    }

    /// Makes a new instance that decodes `inner` from its start.
    pub fn new(inner: Vec<u8>) -> (r: Self)
        ensures
            r.input() == inner@,
            r.position() == 0,
    {
        Decoder { inner, pos: 0 }
    }

    /// Unwraps this `Decoder`, returning the bytes not yet decoded.
    pub fn into_inner(self) -> (r: Vec<u8>)
        ensures
            r@ == self.input().subrange(self.position(), self.input().len() as int),
    {
        proof {
            use_type_invariant(&self);
        }
        read_bytes(self.inner.as_slice(), self.pos, self.inner.len() - self.pos)
    }

    /// Decodes the next AMF3 value. Reference tables start empty for each
    /// value; on success the position moves past the value.
    pub fn decode(&mut self) -> (r: Result<Value, DecodeError>)
        ensures
            final(self).input() == old(self).input(),
            match value_at(old(self).input(), old(self).position(), Tables::empty()) {
                Ok((v, p, _)) => r is Ok && r->Ok_0@ == v && final(self).position() == p,
                Err(e) => r is Err && r->Err_0@ == e && final(self).position() == old(self).position(),
            },
    {
        proof {
            use_type_invariant(&*self);
        }
        let mut st = State::new();
        match decode_value(self.inner.as_slice(), self.pos, &mut st) {
            Err(e) => Err(e),
            Ok((v, p)) => {
                self.pos = p;
                Ok(v)
            },
        }
    }
}

} // verus!
