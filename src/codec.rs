//! The binary envelope exchanged between admin services.
//!
//! Integers are big-endian; a text is its UTF-8 length as eight bytes and
//! then the bytes; a list is its length as eight bytes and then its items.
//! An envelope is its action as four bytes and then a length-prefixed payload,
//! so that an action this node does not know can still be framed and skipped.
use vstd::prelude::*;
use vstd::utf8::*;
use vstd::string::StringSliceAdditionalSpecFns;
use crate::circuit::{AuthorizationType, Circuit, PersistenceType, RouteType, SplinterNode, SplinterService};

verus! {

/// The action of an envelope that proposes a new circuit.
pub const CIRCUIT_CREATE_REQUEST: u32 = 1;

/// A framed envelope: its action and the bytes of its payload.
pub struct Envelope {
    pub action: u32,
    pub payload: Vec<u8>,
}

pub open spec fn be_u64(n: u64) -> Seq<u8> {
    seq![
        (n >> 56u64) as u8, (n >> 48u64) as u8, (n >> 40u64) as u8, (n >> 32u64) as u8,
        (n >> 24u64) as u8, (n >> 16u64) as u8, (n >> 8u64) as u8, n as u8,
    ]
}

pub open spec fn be_u32(n: u32) -> Seq<u8> {
    seq![(n >> 24u32) as u8, (n >> 16u32) as u8, (n >> 8u32) as u8, n as u8]
}

pub open spec fn blob_bytes(b: Seq<u8>) -> Seq<u8> {
    be_u64(b.len() as u64) + b
}

pub open spec fn text_bytes(s: Seq<char>) -> Seq<u8> {
    blob_bytes(encode_utf8(s))
}

/// The items of a list, one after another, each encoded by `f`.
pub open spec fn items_of<T>(s: Seq<T>, f: spec_fn(T) -> Seq<u8>) -> Seq<u8>
    decreases s.len(),
{
    if s.len() == 0 {
        Seq::empty()
    } else {
        items_of(s.drop_last(), f) + f(s.last())
    }
}

pub open spec fn text_item() -> spec_fn(String) -> Seq<u8> {
    |s: String| text_bytes(s@)
}

pub open spec fn text_items(ss: Seq<String>) -> Seq<u8> {
    items_of(ss, text_item())
}

pub open spec fn texts_bytes(ss: Seq<String>) -> Seq<u8> {
    be_u64(ss.len() as u64) + text_items(ss)
}

pub open spec fn node_bytes(n: SplinterNode) -> Seq<u8> {
    text_bytes(n.node_id@) + text_bytes(n.endpoint@)
}

pub open spec fn node_item() -> spec_fn(SplinterNode) -> Seq<u8> {
    |n: SplinterNode| node_bytes(n)
}

pub open spec fn node_items(ns: Seq<SplinterNode>) -> Seq<u8> {
    items_of(ns, node_item())
}

pub open spec fn service_bytes(s: SplinterService) -> Seq<u8> {
    text_bytes(s.service_id@) + text_bytes(s.service_type@) + texts_bytes(s.allowed_nodes@)
}

pub open spec fn service_item() -> spec_fn(SplinterService) -> Seq<u8> {
    |v: SplinterService| service_bytes(v)
}

pub open spec fn service_items(ss: Seq<SplinterService>) -> Seq<u8> {
    items_of(ss, service_item())
}

/// The single byte of each enumerated circuit setting.
pub open spec fn settings_bytes(c: Circuit) -> Seq<u8> {
    seq![1u8, 1u8, 1u8]
}

/// The encoding of a circuit, field by field in declaration order.
pub open spec fn circuit_bytes(c: Circuit) -> Seq<u8> {
    text_bytes(c.circuit_id@)
        + (be_u64(c.members@.len() as u64) + node_items(c.members@))
        + (be_u64(c.roster@.len() as u64) + service_items(c.roster@))
        + settings_bytes(c)
        + text_bytes(c.circuit_management_type@)
        + blob_bytes(c.application_metadata@)
        + be_u32(c.protocol_version as u32)
}

pub open spec fn envelope_bytes(action: u32, payload: Seq<u8>) -> Seq<u8> {
    be_u32(action) + blob_bytes(payload)
}

/// The envelope that proposes circuit `c`.
pub open spec fn create_request_bytes(c: Circuit) -> Seq<u8> {
    envelope_bytes(CIRCUIT_CREATE_REQUEST, circuit_bytes(c))
}

fn write_u64(out: &mut Vec<u8>, n: u64)
    ensures
        final(out)@ == old(out)@ + be_u64(n),
{
    out.push((n >> 56u64) as u8);
    out.push((n >> 48u64) as u8);
    out.push((n >> 40u64) as u8);
    out.push((n >> 32u64) as u8);
    out.push((n >> 24u64) as u8);
    out.push((n >> 16u64) as u8);
    out.push((n >> 8u64) as u8);
    out.push(n as u8);
    assert(final(out)@ =~= old(out)@ + be_u64(n));
}

fn write_u32(out: &mut Vec<u8>, n: u32)
    ensures
        final(out)@ == old(out)@ + be_u32(n),
{
    out.push((n >> 24u32) as u8);
    out.push((n >> 16u32) as u8);
    out.push((n >> 8u32) as u8);
    out.push(n as u8);
    assert(final(out)@ =~= old(out)@ + be_u32(n));
}

fn write_blob(out: &mut Vec<u8>, b: &[u8])
    ensures
        final(out)@ == old(out)@ + blob_bytes(b@),
{
    write_u64(out, b.len() as u64);
    let ghost start = out@;
    let mut i: usize = 0;
    while i < b.len()
        invariant
            i <= b@.len(),
            out@ == start + b@.subrange(0, i as int),
        decreases b@.len() - i,
    {
        out.push(b[i]);
        i = i + 1;
        assert(out@ =~= start + b@.subrange(0, i as int));
    }
    assert(b@.subrange(0, b@.len() as int) =~= b@);
}

fn write_text(out: &mut Vec<u8>, s: &String)
    ensures
        final(out)@ == old(out)@ + text_bytes(s@),
{
    write_blob(out, s.as_str().as_bytes());
}

fn write_texts(out: &mut Vec<u8>, ss: &Vec<String>)
    ensures
        final(out)@ == old(out)@ + texts_bytes(ss@),
{
    write_u64(out, ss.len() as u64);
    let ghost start = out@;
    let mut i: usize = 0;
    while i < ss.len()
        invariant
            i <= ss@.len(),
            out@ == start + text_items(ss@.subrange(0, i as int)),
        decreases ss@.len() - i,
    {
        write_text(out, &ss[i]);
        proof {
            let next = ss@.subrange(0, i + 1);
            assert(next.drop_last() =~= ss@.subrange(0, i as int));
        }
        i = i + 1;
        assert(out@ =~= start + text_items(ss@.subrange(0, i as int)));
    }
    assert(ss@.subrange(0, ss@.len() as int) =~= ss@);
    assert(out@ =~= old(out)@ + texts_bytes(ss@));
}

fn write_node(out: &mut Vec<u8>, n: &SplinterNode)
    ensures
        final(out)@ == old(out)@ + node_bytes(*n),
{
    write_text(out, &n.node_id);
    write_text(out, &n.endpoint);
    assert(out@ =~= old(out)@ + node_bytes(*n));
}

fn write_service(out: &mut Vec<u8>, s: &SplinterService)
    ensures
        final(out)@ == old(out)@ + service_bytes(*s),
{
    write_text(out, &s.service_id);
    write_text(out, &s.service_type);
    write_texts(out, &s.allowed_nodes);
    assert(out@ =~= old(out)@ + service_bytes(*s));
}

fn write_nodes(out: &mut Vec<u8>, ns: &Vec<SplinterNode>)
    ensures
        final(out)@ == old(out)@ + (be_u64(ns@.len() as u64) + node_items(ns@)),
{
    write_u64(out, ns.len() as u64);
    let ghost start = out@;
    let mut i: usize = 0;
    while i < ns.len()
        invariant
            i <= ns@.len(),
            out@ == start + node_items(ns@.subrange(0, i as int)),
        decreases ns@.len() - i,
    {
        write_node(out, &ns[i]);
        proof {
            let next = ns@.subrange(0, i + 1);
            assert(next.drop_last() =~= ns@.subrange(0, i as int));
        }
        i = i + 1;
        assert(out@ =~= start + node_items(ns@.subrange(0, i as int)));
    }
    assert(ns@.subrange(0, ns@.len() as int) =~= ns@);
    assert(out@ =~= old(out)@ + (be_u64(ns@.len() as u64) + node_items(ns@)));
}

fn write_services(out: &mut Vec<u8>, ss: &Vec<SplinterService>)
    ensures
        final(out)@ == old(out)@ + (be_u64(ss@.len() as u64) + service_items(ss@)),
{
    write_u64(out, ss.len() as u64);
    let ghost start = out@;
    let mut i: usize = 0;
    while i < ss.len()
        invariant
            i <= ss@.len(),
            out@ == start + service_items(ss@.subrange(0, i as int)),
        decreases ss@.len() - i,
    {
        write_service(out, &ss[i]);
        proof {
            let next = ss@.subrange(0, i + 1);
            assert(next.drop_last() =~= ss@.subrange(0, i as int));
        }
        i = i + 1;
        assert(out@ =~= start + service_items(ss@.subrange(0, i as int)));
    }
    assert(ss@.subrange(0, ss@.len() as int) =~= ss@);
    assert(out@ =~= old(out)@ + (be_u64(ss@.len() as u64) + service_items(ss@)));
}

/// Encodes a circuit.
pub fn encode_circuit(c: &Circuit) -> (r: Vec<u8>)
    ensures
        r@ == circuit_bytes(*c),
{
    let mut out: Vec<u8> = Vec::new();
    write_text(&mut out, &c.circuit_id);
    write_nodes(&mut out, &c.members);
    write_services(&mut out, &c.roster);
    out.push(1u8);
    out.push(1u8);
    out.push(1u8);
    write_text(&mut out, &c.circuit_management_type);
    write_blob(&mut out, c.application_metadata.as_slice());
    write_u32(&mut out, c.protocol_version as u32);
    assert(out@ =~= circuit_bytes(*c));
    out
}

/// Frames a payload under an action.
pub fn encode_envelope(action: u32, payload: &[u8]) -> (r: Vec<u8>)
    ensures
        r@ == envelope_bytes(action, payload@),
{
    let mut out: Vec<u8> = Vec::new();
    write_u32(&mut out, action);
    write_blob(&mut out, payload);
    assert(out@ =~= envelope_bytes(action, payload@));
    out
}

/// Relies on String::from_utf8: it accepts valid UTF-8, and the string it
/// returns holds the given bytes.
#[verifier::external_body]
fn utf8_text(bytes: Vec<u8>) -> (r: Option<String>)
    ensures
        valid_utf8(bytes@) ==> r is Some,
        r matches Some(s) ==> encode_utf8(s@) == bytes@,
{
    String::from_utf8(bytes).ok()
}

/// `x` stands in `b` from position `pos` on.
pub open spec fn prefix_at(b: Seq<u8>, pos: int, x: Seq<u8>) -> bool {
    0 <= pos && pos + x.len() <= b.len() && b.subrange(pos, pos + x.len()) == x
}

proof fn lemma_prefix_split(b: Seq<u8>, pos: int, x: Seq<u8>, y: Seq<u8>)
    requires
        prefix_at(b, pos, x + y),
    ensures
        prefix_at(b, pos, x),
        prefix_at(b, pos + x.len(), y),
{
    let whole = b.subrange(pos, pos + x.len() + y.len());
    assert forall|i: int| 0 <= i < x.len() implies b[pos + i] == x[i] by {
        assert(whole[i] == (x + y)[i]);
    }
    assert forall|i: int| 0 <= i < y.len() implies b[pos + x.len() + i] == y[i] by {
        assert(whole[x.len() + i] == (x + y)[x.len() + i]);
    }
    assert(b.subrange(pos, pos + x.len()) =~= x);
    assert(b.subrange(pos + x.len(), pos + x.len() + y.len()) =~= y);
}

proof fn lemma_be_u64_injective(n: u64, m: u64)
    requires
        be_u64(n) == be_u64(m),
    ensures
        n == m,
{
    assert(be_u64(n)[0] == be_u64(m)[0] && be_u64(n)[1] == be_u64(m)[1]);
    assert(be_u64(n)[2] == be_u64(m)[2] && be_u64(n)[3] == be_u64(m)[3]);
    assert(be_u64(n)[4] == be_u64(m)[4] && be_u64(n)[5] == be_u64(m)[5]);
    assert(be_u64(n)[6] == be_u64(m)[6] && be_u64(n)[7] == be_u64(m)[7]);
    assert(n == m) by (bit_vector)
        requires
            (n >> 56u64) as u8 == (m >> 56u64) as u8,
            (n >> 48u64) as u8 == (m >> 48u64) as u8,
            (n >> 40u64) as u8 == (m >> 40u64) as u8,
            (n >> 32u64) as u8 == (m >> 32u64) as u8,
            (n >> 24u64) as u8 == (m >> 24u64) as u8,
            (n >> 16u64) as u8 == (m >> 16u64) as u8,
            (n >> 8u64) as u8 == (m >> 8u64) as u8,
            n as u8 == m as u8,
    ;
}

proof fn lemma_be_u32_injective(n: u32, m: u32)
    requires
        be_u32(n) == be_u32(m),
    ensures
        n == m,
{
    assert(be_u32(n)[0] == be_u32(m)[0] && be_u32(n)[1] == be_u32(m)[1]);
    assert(be_u32(n)[2] == be_u32(m)[2] && be_u32(n)[3] == be_u32(m)[3]);
    assert(n == m) by (bit_vector)
        requires
            (n >> 24u32) as u8 == (m >> 24u32) as u8,
            (n >> 16u32) as u8 == (m >> 16u32) as u8,
            (n >> 8u32) as u8 == (m >> 8u32) as u8,
            n as u8 == m as u8,
    ;
}

/// A list encodes to at least one byte per item when each item does.
proof fn lemma_items_len<T>(s: Seq<T>, f: spec_fn(T) -> Seq<u8>)
    requires
        forall|x: T| #[trigger] f(x).len() >= 1,
    ensures
        items_of(s, f).len() >= s.len(),
    decreases s.len(),
{
    if s.len() > 0 {
        lemma_items_len(s.drop_last(), f);
        assert(f(s.last()).len() >= 1);
    }
}

/// The encoding of the first `k` items is a prefix of the encoding of the list.
proof fn lemma_items_prefix<T>(s: Seq<T>, f: spec_fn(T) -> Seq<u8>, k: int)
    requires
        0 <= k <= s.len(),
    ensures
        items_of(s.subrange(0, k), f).len() <= items_of(s, f).len(),
        items_of(s, f).subrange(0, items_of(s.subrange(0, k), f).len() as int) == items_of(
            s.subrange(0, k),
            f,
        ),
    decreases s.len(),
{
    let whole = items_of(s, f);
    if k == s.len() {
        assert(s.subrange(0, k) =~= s);
        assert(whole.subrange(0, whole.len() as int) =~= whole);
    } else {
        let t = s.drop_last();
        assert(t.subrange(0, k) =~= s.subrange(0, k));
        lemma_items_prefix(t, f, k);
        let part = items_of(s.subrange(0, k), f);
        assert(whole.subrange(0, part.len() as int) =~= items_of(t, f).subrange(
            0,
            part.len() as int,
        ));
    }
}

/// Where a list's encoding stands at `start`, item `i` stands right after the
/// items before it.
proof fn lemma_next_item<T>(b: Seq<u8>, start: int, s: Seq<T>, f: spec_fn(T) -> Seq<u8>, i: int)
    requires
        0 <= i < s.len(),
        prefix_at(b, start, items_of(s, f)),
    ensures
        prefix_at(b, start + items_of(s.subrange(0, i), f).len(), f(s[i])),
        items_of(s.subrange(0, i + 1), f) == items_of(s.subrange(0, i), f) + f(s[i]),
{
    let next = s.subrange(0, i + 1);
    assert(next.drop_last() =~= s.subrange(0, i));
    lemma_items_prefix(s, f, i + 1);
    let whole = items_of(s, f);
    let head = items_of(next, f);
    assert(prefix_at(b, start, head)) by {
        assert forall|j: int| 0 <= j < head.len() implies b[start + j] == head[j] by {
            assert(b.subrange(start, start + whole.len())[j] == whole[j]);
            assert(whole.subrange(0, head.len() as int)[j] == whole[j]);
        }
        assert(b.subrange(start, start + head.len()) =~= head);
    }
    lemma_prefix_split(b, start, items_of(s.subrange(0, i), f), f(s[i]));
}

fn read_u64(b: &[u8], pos: usize) -> (r: Option<(u64, usize)>)
    requires
        pos <= b@.len(),
    ensures
        r is Some <==> pos + 8 <= b@.len(),
        r matches Some((n, p)) ==> p == pos + 8 && b@.subrange(pos as int, p as int) == be_u64(n),
        forall|n: u64| #[trigger] prefix_at(b@, pos as int, be_u64(n)) ==> r == Some((n, (pos + 8) as usize)),
{
    if b.len() - pos < 8 {
        return None;
    }
    let b0 = b[pos];
    let b1 = b[pos + 1];
    let b2 = b[pos + 2];
    let b3 = b[pos + 3];
    let b4 = b[pos + 4];
    let b5 = b[pos + 5];
    let b6 = b[pos + 6];
    let b7 = b[pos + 7];
    let n: u64 = (b0 as u64) << 56u64 | (b1 as u64) << 48u64 | (b2 as u64) << 40u64
        | (b3 as u64) << 32u64 | (b4 as u64) << 24u64 | (b5 as u64) << 16u64
        | (b6 as u64) << 8u64 | (b7 as u64);
    assert((n >> 56u64) as u8 == b0 && (n >> 48u64) as u8 == b1 && (n >> 40u64) as u8 == b2
        && (n >> 32u64) as u8 == b3 && (n >> 24u64) as u8 == b4 && (n >> 16u64) as u8 == b5
        && (n >> 8u64) as u8 == b6 && n as u8 == b7) by (bit_vector)
        requires
            n == (b0 as u64) << 56u64 | (b1 as u64) << 48u64 | (b2 as u64) << 40u64
                | (b3 as u64) << 32u64 | (b4 as u64) << 24u64 | (b5 as u64) << 16u64
                | (b6 as u64) << 8u64 | (b7 as u64),
    ;
    assert(b@.subrange(pos as int, pos + 8) =~= be_u64(n));
    assert forall|m: u64| #[trigger] prefix_at(b@, pos as int, be_u64(m)) implies m == n by {
        lemma_be_u64_injective(m, n);
    }
    Some((n, pos + 8))
}

fn read_u32(b: &[u8], pos: usize) -> (r: Option<(u32, usize)>)
    requires
        pos <= b@.len(),
    ensures
        r is Some <==> pos + 4 <= b@.len(),
        r matches Some((n, p)) ==> p == pos + 4 && b@.subrange(pos as int, p as int) == be_u32(n),
        forall|n: u32| #[trigger] prefix_at(b@, pos as int, be_u32(n)) ==> r == Some((n, (pos + 4) as usize)),
{
    if b.len() - pos < 4 {
        return None;
    }
    let b0 = b[pos];
    let b1 = b[pos + 1];
    let b2 = b[pos + 2];
    let b3 = b[pos + 3];
    let n: u32 = (b0 as u32) << 24u32 | (b1 as u32) << 16u32 | (b2 as u32) << 8u32 | (b3 as u32);
    assert((n >> 24u32) as u8 == b0 && (n >> 16u32) as u8 == b1 && (n >> 8u32) as u8 == b2
        && n as u8 == b3) by (bit_vector)
        requires
            n == (b0 as u32) << 24u32 | (b1 as u32) << 16u32 | (b2 as u32) << 8u32 | (b3 as u32),
    ;
    assert(b@.subrange(pos as int, pos + 4) =~= be_u32(n));
    assert forall|m: u32| #[trigger] prefix_at(b@, pos as int, be_u32(m)) implies m == n by {
        lemma_be_u32_injective(m, n);
    }
    Some((n, pos + 4))
}

fn read_blob(b: &[u8], pos: usize, Ghost(want): Ghost<Option<Seq<u8>>>) -> (r: Option<(Vec<u8>, usize)>)
    requires
        pos <= b@.len(),
    ensures
        r matches Some((v, p)) ==> pos <= p <= b@.len() && b@.subrange(pos as int, p as int)
            == blob_bytes(v@),
        want matches Some(v) ==> (prefix_at(b@, pos as int, blob_bytes(v)) ==> (r matches Some((w, p))
            && w@ == v && p == pos + blob_bytes(v).len())),
{
    let total = b.len();
    proof {
        if let Some(v) = want {
            if prefix_at(b@, pos as int, blob_bytes(v)) {
                lemma_prefix_split(b@, pos as int, be_u64(v.len() as u64), v);
            }
        }
    }
    let (len, p) = match read_u64(b, pos) {
        Some(x) => x,
        None => return None,
    };
    if len > (total - p) as u64 {
        return None;
    }
    let end = p + len as usize;
    let v = vstd::slice::slice_to_vec(vstd::slice::slice_subrange(b, p, end));
    assert(b@.subrange(pos as int, end as int) =~= b@.subrange(pos as int, p as int) + b@.subrange(
        p as int,
        end as int,
    ));
    Some((v, end))
}

fn read_text(b: &[u8], pos: usize, Ghost(want): Ghost<Option<Seq<char>>>) -> (r: Option<(String, usize)>)
    requires
        pos <= b@.len(),
    ensures
        r matches Some((s, p)) ==> pos <= p <= b@.len() && b@.subrange(pos as int, p as int)
            == text_bytes(s@),
        want matches Some(t) ==> (prefix_at(b@, pos as int, text_bytes(t)) ==> (r matches Some((_, p))
            && p == pos + text_bytes(t).len())),
{
    let ghost want_bytes = match want {
        Some(t) => Some(encode_utf8(t)),
        None => None,
    };
    let (v, p) = match read_blob(b, pos, Ghost(want_bytes)) {
        Some(x) => x,
        None => return None,
    };
    proof {
        if let Some(t) = want {
            encode_utf8_valid_utf8(t);
        }
    }
    match utf8_text(v) {
        Some(s) => Some((s, p)),
        None => None,
    }
}

fn read_texts(b: &[u8], pos: usize, Ghost(want): Ghost<Option<Seq<String>>>) -> (r: Option<(Vec<String>, usize)>)
    requires
        pos <= b@.len(),
    ensures
        r matches Some((v, p)) ==> pos <= p <= b@.len() && b@.subrange(pos as int, p as int)
            == texts_bytes(v@),
        want matches Some(vs) ==> (prefix_at(b@, pos as int, texts_bytes(vs)) ==> (r matches Some((_, p))
            && p == pos + texts_bytes(vs).len())),
{
    let total = b.len();
    let ghost f = text_item();
    let ghost fits = want is Some && prefix_at(b@, pos as int, texts_bytes(want->Some_0));
    proof {
        if let Some(vs) = want {
            if fits {
                lemma_prefix_split(b@, pos as int, be_u64(vs.len() as u64), text_items(vs));
                lemma_items_len(vs, f);
            }
        }
    }
    let (count, mut p) = match read_u64(b, pos) {
        Some(x) => x,
        None => return None,
    };
    let mut items: Vec<String> = Vec::new();
    let mut i: u64 = 0;
    while i < count
        invariant
            pos + 8 <= p <= b@.len(),
            total == b@.len(),
            f == text_item(),
            fits == (want is Some && prefix_at(b@, pos as int, texts_bytes(want->Some_0))),
            items@.len() == i,
            i <= count,
            b@.subrange(pos as int, p as int) == be_u64(count) + text_items(items@),
            fits ==> (want matches Some(vs) && count == vs.len() && prefix_at(b@, pos + 8, items_of(vs, f))
                && p == pos + 8 + items_of(vs.subrange(0, i as int), f).len()),
        decreases count - i,
    {
        let ghost elem = match want {
            Some(vs) => if fits { Some(vs[i as int]@) } else { None },
            None => None,
        };
        proof {
            if fits {
                let vs = want->Some_0;
                lemma_next_item(b@, pos + 8, vs, f, i as int);
                assert(f(vs[i as int]) == text_bytes(vs[i as int]@));
            }
        }
        let (s, q) = match read_text(b, p, Ghost(elem)) {
            Some(x) => x,
            None => return None,
        };
        let ghost prev = items@;
        items.push(s);
        assert(items@.drop_last() =~= prev);
        assert(b@.subrange(pos as int, q as int) =~= b@.subrange(pos as int, p as int)
            + b@.subrange(p as int, q as int));
        assert(b@.subrange(pos as int, q as int) =~= be_u64(count) + text_items(items@));
        p = q;
        i = i + 1;
    }
    proof {
        if fits {
            let vs = want->Some_0;
            assert(vs.subrange(0, i as int) =~= vs);
        }
    }
    Some((items, p))
}

fn read_node(b: &[u8], pos: usize, Ghost(want): Ghost<Option<SplinterNode>>) -> (r: Option<(SplinterNode, usize)>)
    requires
        pos <= b@.len(),
    ensures
        r matches Some((n, p)) ==> pos <= p <= b@.len() && b@.subrange(pos as int, p as int)
            == node_bytes(n),
        want matches Some(m) ==> (prefix_at(b@, pos as int, node_bytes(m)) ==> (r matches Some((_, p))
            && p == pos + node_bytes(m).len())),
{
    let ghost fits = want matches Some(m) && prefix_at(b@, pos as int, node_bytes(m));
    let ghost m = want->Some_0;
    proof {
        if fits {
            lemma_prefix_split(b@, pos as int, text_bytes(m.node_id@), text_bytes(m.endpoint@));
        }
    }
    let (node_id, p1) = match read_text(b, pos, Ghost(if fits { Some(m.node_id@) } else { None })) {
        Some(x) => x,
        None => return None,
    };
    let (endpoint, p2) = match read_text(b, p1, Ghost(if fits { Some(m.endpoint@) } else { None })) {
        Some(x) => x,
        None => return None,
    };
    let n = SplinterNode { node_id, endpoint };
    assert(b@.subrange(pos as int, p2 as int) =~= b@.subrange(pos as int, p1 as int)
        + b@.subrange(p1 as int, p2 as int));
    Some((n, p2))
}

fn read_service(b: &[u8], pos: usize, Ghost(want): Ghost<Option<SplinterService>>) -> (r: Option<(SplinterService, usize)>)
    requires
        pos <= b@.len(),
    ensures
        r matches Some((s, p)) ==> pos <= p <= b@.len() && b@.subrange(pos as int, p as int)
            == service_bytes(s),
        want matches Some(m) ==> (prefix_at(b@, pos as int, service_bytes(m)) ==> (r matches Some((_, p))
            && p == pos + service_bytes(m).len())),
{
    let ghost fits = want matches Some(m) && prefix_at(b@, pos as int, service_bytes(m));
    let ghost m = want->Some_0;
    proof {
        if fits {
            lemma_prefix_split(
                b@,
                pos as int,
                text_bytes(m.service_id@) + text_bytes(m.service_type@),
                texts_bytes(m.allowed_nodes@),
            );
            lemma_prefix_split(b@, pos as int, text_bytes(m.service_id@), text_bytes(m.service_type@));
        }
    }
    let (service_id, p1) = match read_text(b, pos, Ghost(if fits { Some(m.service_id@) } else { None })) {
        Some(x) => x,
        None => return None,
    };
    let (service_type, p2) = match read_text(b, p1, Ghost(if fits { Some(m.service_type@) } else { None })) {
        Some(x) => x,
        None => return None,
    };
    let (allowed_nodes, p3) = match read_texts(b, p2, Ghost(if fits { Some(m.allowed_nodes@) } else { None })) {
        Some(x) => x,
        None => return None,
    };
    let s = SplinterService { service_id, service_type, allowed_nodes };
    assert(b@.subrange(pos as int, p2 as int) =~= b@.subrange(pos as int, p1 as int)
        + b@.subrange(p1 as int, p2 as int));
    assert(b@.subrange(pos as int, p3 as int) =~= b@.subrange(pos as int, p2 as int)
        + b@.subrange(p2 as int, p3 as int));
    Some((s, p3))
}

fn read_nodes(b: &[u8], pos: usize, Ghost(want): Ghost<Option<Seq<SplinterNode>>>) -> (r: Option<(Vec<SplinterNode>, usize)>)
    requires
        pos <= b@.len(),
    ensures
        r matches Some((v, p)) ==> pos <= p <= b@.len() && b@.subrange(pos as int, p as int)
            == be_u64(v@.len() as u64) + node_items(v@),
        want matches Some(vs) ==> (prefix_at(b@, pos as int, be_u64(vs.len() as u64) + node_items(vs)) ==> (r matches Some((_, p)) && p == pos + 8 + node_items(vs).len())),
{
    let total = b.len();
    let ghost f = node_item();
    let ghost fits = want is Some && prefix_at(b@, pos as int, be_u64(want->Some_0.len() as u64) + node_items(want->Some_0));
    proof {
        if let Some(vs) = want {
            if fits {
                lemma_prefix_split(b@, pos as int, be_u64(vs.len() as u64), node_items(vs));
                lemma_items_len(vs, f);
            }
        }
    }
    let (count, mut p) = match read_u64(b, pos) {
        Some(x) => x,
        None => return None,
    };
    let mut items: Vec<SplinterNode> = Vec::new();
    let mut i: u64 = 0;
    while i < count
        invariant
            pos + 8 <= p <= b@.len(),
            total == b@.len(),
            f == node_item(),
            fits == (want is Some && prefix_at(b@, pos as int, be_u64(want->Some_0.len() as u64) + node_items(want->Some_0))),
            items@.len() == i,
            i <= count,
            b@.subrange(pos as int, p as int) == be_u64(count) + node_items(items@),
            fits ==> (want matches Some(vs) && count == vs.len() && prefix_at(b@, pos + 8, items_of(vs, f))
                && p == pos + 8 + items_of(vs.subrange(0, i as int), f).len()),
        decreases count - i,
    {
        let ghost elem = match want {
            Some(vs) => if fits { Some(vs[i as int]) } else { None },
            None => None,
        };
        proof {
            if fits {
                let vs = want->Some_0;
                lemma_next_item(b@, pos + 8, vs, f, i as int);
                assert(f(vs[i as int]) == node_bytes(vs[i as int]));
            }
        }
        let (n, q) = match read_node(b, p, Ghost(elem)) {
            Some(x) => x,
            None => return None,
        };
        let ghost prev = items@;
        items.push(n);
        assert(items@.drop_last() =~= prev);
        assert(b@.subrange(pos as int, q as int) =~= b@.subrange(pos as int, p as int)
            + b@.subrange(p as int, q as int));
        assert(b@.subrange(pos as int, q as int) =~= be_u64(count) + node_items(items@));
        p = q;
        i = i + 1;
    }
    proof {
        if fits {
            let vs = want->Some_0;
            assert(vs.subrange(0, i as int) =~= vs);
        }
    }
    Some((items, p))
}

fn read_services(b: &[u8], pos: usize, Ghost(want): Ghost<Option<Seq<SplinterService>>>) -> (r: Option<(Vec<SplinterService>, usize)>)
    requires
        pos <= b@.len(),
    ensures
        r matches Some((v, p)) ==> pos <= p <= b@.len() && b@.subrange(pos as int, p as int)
            == be_u64(v@.len() as u64) + service_items(v@),
        want matches Some(vs) ==> (prefix_at(b@, pos as int, be_u64(vs.len() as u64) + service_items(vs)) ==> (r matches Some((_, p)) && p == pos + 8 + service_items(vs).len())),
{
    let total = b.len();
    let ghost f = service_item();
    let ghost fits = want is Some && prefix_at(b@, pos as int, be_u64(want->Some_0.len() as u64) + service_items(want->Some_0));
    proof {
        if let Some(vs) = want {
            if fits {
                lemma_prefix_split(b@, pos as int, be_u64(vs.len() as u64), service_items(vs));
                lemma_items_len(vs, f);
            }
        }
    }
    let (count, mut p) = match read_u64(b, pos) {
        Some(x) => x,
        None => return None,
    };
    let mut items: Vec<SplinterService> = Vec::new();
    let mut i: u64 = 0;
    while i < count
        invariant
            pos + 8 <= p <= b@.len(),
            total == b@.len(),
            f == service_item(),
            fits == (want is Some && prefix_at(b@, pos as int, be_u64(want->Some_0.len() as u64) + service_items(want->Some_0))),
            items@.len() == i,
            i <= count,
            b@.subrange(pos as int, p as int) == be_u64(count) + service_items(items@),
            fits ==> (want matches Some(vs) && count == vs.len() && prefix_at(b@, pos + 8, items_of(vs, f))
                && p == pos + 8 + items_of(vs.subrange(0, i as int), f).len()),
        decreases count - i,
    {
        let ghost elem = match want {
            Some(vs) => if fits { Some(vs[i as int]) } else { None },
            None => None,
        };
        proof {
            if fits {
                let vs = want->Some_0;
                lemma_next_item(b@, pos + 8, vs, f, i as int);
                assert(f(vs[i as int]) == service_bytes(vs[i as int]));
            }
        }
        let (s, q) = match read_service(b, p, Ghost(elem)) {
            Some(x) => x,
            None => return None,
        };
        let ghost prev = items@;
        items.push(s);
        assert(items@.drop_last() =~= prev);
        assert(b@.subrange(pos as int, q as int) =~= b@.subrange(pos as int, p as int)
            + b@.subrange(p as int, q as int));
        assert(b@.subrange(pos as int, q as int) =~= be_u64(count) + service_items(items@));
        p = q;
        i = i + 1;
    }
    proof {
        if fits {
            let vs = want->Some_0;
            assert(vs.subrange(0, i as int) =~= vs);
        }
    }
    Some((items, p))
}

fn read_settings(b: &[u8], pos: usize) -> (r: Option<usize>)
    requires
        pos <= b@.len(),
    ensures
        r matches Some(p) ==> p == pos + 3 && p <= b@.len() && b@.subrange(pos as int, p as int)
            == seq![1u8, 1u8, 1u8],
        prefix_at(b@, pos as int, seq![1u8, 1u8, 1u8]) ==> r == Some((pos + 3) as usize),
{
    if b.len() - pos < 3 || b[pos] != 1u8 || b[pos + 1] != 1u8 || b[pos + 2] != 1u8 {
        proof {
            if prefix_at(b@, pos as int, seq![1u8, 1u8, 1u8]) {
                let s = b@.subrange(pos as int, pos + 3);
                assert(s[0] == b@[pos as int] && s[1] == b@[pos + 1] && s[2] == b@[pos + 2]);
            }
        }
        return None;
    }
    assert(b@.subrange(pos as int, pos + 3) =~= seq![1u8, 1u8, 1u8]);
    Some(pos + 3)
}

proof fn lemma_split(s: Seq<u8>, a: int, m: int, e: int)
    requires
        0 <= a <= m <= e <= s.len(),
    ensures
        s.subrange(a, e) == s.subrange(a, m) + s.subrange(m, e),
{
    assert(s.subrange(a, e) =~= s.subrange(a, m) + s.subrange(m, e));
}

#[verifier::rlimit(40)]
fn read_circuit(b: &[u8], Ghost(want): Ghost<Option<Circuit>>) -> (r: Option<Circuit>)
    ensures
        r matches Some(c) ==> circuit_bytes(c) == b@,
        want matches Some(c) && circuit_bytes(c) == b@ ==> r is Some,
{
    let ghost fits = want matches Some(c) && circuit_bytes(c) == b@;
    let ghost c = want->Some_0;
    let ghost x1 = text_bytes(c.circuit_id@);
    let ghost x2 = be_u64(c.members@.len() as u64) + node_items(c.members@);
    let ghost x3 = be_u64(c.roster@.len() as u64) + service_items(c.roster@);
    let ghost x4 = settings_bytes(c);
    let ghost x5 = text_bytes(c.circuit_management_type@);
    let ghost x6 = blob_bytes(c.application_metadata@);
    let ghost x7 = be_u32(c.protocol_version as u32);
    proof {
        if fits {
            assert(prefix_at(b@, 0, circuit_bytes(c))) by {
                assert(b@.subrange(0, b@.len() as int) =~= b@);
            }
            lemma_prefix_split(b@, 0, x1 + x2 + x3 + x4 + x5 + x6, x7);
            lemma_prefix_split(b@, 0, x1 + x2 + x3 + x4 + x5, x6);
            lemma_prefix_split(b@, 0, x1 + x2 + x3 + x4, x5);
            lemma_prefix_split(b@, 0, x1 + x2 + x3, x4);
            lemma_prefix_split(b@, 0, x1 + x2, x3);
            lemma_prefix_split(b@, 0, x1, x2);
        }
    }
    let (circuit_id, p1) = match read_text(b, 0, Ghost(if fits { Some(c.circuit_id@) } else { None })) {
        Some(x) => x,
        None => return None,
    };
    let (members, p2) = match read_nodes(b, p1, Ghost(if fits { Some(c.members@) } else { None })) {
        Some(x) => x,
        None => return None,
    };
    let (roster, p3) = match read_services(b, p2, Ghost(if fits { Some(c.roster@) } else { None })) {
        Some(x) => x,
        None => return None,
    };
    let p4 = match read_settings(b, p3) {
        Some(x) => x,
        None => return None,
    };
    let (circuit_management_type, p5) = match read_text(
        b,
        p4,
        Ghost(if fits { Some(c.circuit_management_type@) } else { None }),
    ) {
        Some(x) => x,
        None => return None,
    };
    let (application_metadata, p6) = match read_blob(
        b,
        p5,
        Ghost(if fits { Some(c.application_metadata@) } else { None }),
    ) {
        Some(x) => x,
        None => return None,
    };
    let (version, p7) = match read_u32(b, p6) {
        Some(x) => x,
        None => return None,
    };
    if p7 != b.len() {
        return None;
    }
    let d = Circuit {
        circuit_id,
        members,
        roster,
        authorization_type: AuthorizationType::TrustAuthorization,
        persistence: PersistenceType::AnyPersistence,
        routes: RouteType::AnyRoute,
        circuit_management_type,
        application_metadata,
        protocol_version: #[verifier::truncate] (version as i32),
    };
    proof {
        let s = b@;
        assert(#[verifier::truncate] ((#[verifier::truncate] (version as i32)) as u32) == version)
            by (bit_vector);
        lemma_split(s, 0, p1 as int, p2 as int);
        lemma_split(s, 0, p2 as int, p3 as int);
        lemma_split(s, 0, p3 as int, p4 as int);
        lemma_split(s, 0, p4 as int, p5 as int);
        lemma_split(s, 0, p5 as int, p6 as int);
        lemma_split(s, 0, p6 as int, p7 as int);
        assert(s.subrange(0, p7 as int) =~= s);
        assert(settings_bytes(d) == seq![1u8, 1u8, 1u8]);
    }
    Some(d)
}

/// Decodes a circuit: `Some` exactly where the bytes are a circuit's encoding.
pub fn decode_circuit(b: &[u8]) -> (r: Option<Circuit>)
    ensures
        r matches Some(c) ==> circuit_bytes(c) == b@,
        r is None ==> forall|c: Circuit| circuit_bytes(c) != b@,
{
    let ghost want = if exists|c: Circuit| circuit_bytes(c) == b@ {
        Some(choose|c: Circuit| circuit_bytes(c) == b@)
    } else {
        None
    };
    read_circuit(b, Ghost(want))
}

/// Decodes an envelope: `Some` exactly where the bytes are an envelope's framing.
pub fn decode_envelope(b: &[u8]) -> (r: Option<Envelope>)
    ensures
        r matches Some(e) ==> envelope_bytes(e.action, e.payload@) == b@,
        r is None ==> forall|a: u32, p: Seq<u8>| envelope_bytes(a, p) != b@,
{
    let ghost want = if exists|a: u32, p: Seq<u8>| envelope_bytes(a, p) == b@ {
        Some(choose|a: u32, p: Seq<u8>| envelope_bytes(a, p) == b@)
    } else {
        None
    };
    let ghost fits = want is Some;
    let ghost (a, pl) = want->Some_0;
    proof {
        if fits {
            assert(prefix_at(b@, 0, envelope_bytes(a, pl))) by {
                assert(b@.subrange(0, b@.len() as int) =~= b@);
            }
            lemma_prefix_split(b@, 0, be_u32(a), blob_bytes(pl));
        }
    }
    let (action, p1) = match read_u32(b, 0) {
        Some(x) => x,
        None => return None,
    };
    let (payload, p2) = match read_blob(b, p1, Ghost(if fits { Some(pl) } else { None })) {
        Some(x) => x,
        None => return None,
    };
    if p2 != b.len() {
        return None;
    }
    assert(b@ =~= b@.subrange(0, p1 as int) + b@.subrange(p1 as int, p2 as int));
    Some(Envelope { action, payload })
}

/// An envelope's bytes determine its action and its payload.
pub proof fn lemma_envelope_determined(a1: u32, p1: Seq<u8>, a2: u32, p2: Seq<u8>)
    requires
        envelope_bytes(a1, p1) == envelope_bytes(a2, p2),
        envelope_bytes(a1, p1).len() <= u64::MAX,
    ensures
        a1 == a2,
        p1 == p2,
{
    let b = envelope_bytes(a1, p1);
    assert(prefix_at(b, 0, b)) by {
        assert(b.subrange(0, b.len() as int) =~= b);
    }
    assert(prefix_at(b, 0, envelope_bytes(a2, p2)));
    lemma_prefix_split(b, 0, be_u32(a1), blob_bytes(p1));
    lemma_prefix_split(b, 0, be_u32(a2), blob_bytes(p2));
    lemma_be_u32_injective(a1, a2);
    lemma_prefix_split(b, 4, be_u64(p1.len() as u64), p1);
    lemma_prefix_split(b, 4, be_u64(p2.len() as u64), p2);
    lemma_be_u64_injective(p1.len() as u64, p2.len() as u64);
}

proof fn lemma_circuit_starts_with_id(b: Seq<u8>, c: Circuit)
    requires
        prefix_at(b, 0, circuit_bytes(c)),
    ensures
        prefix_at(b, 0, text_bytes(c.circuit_id@)),
{
    let x1 = text_bytes(c.circuit_id@);
    let x2 = be_u64(c.members@.len() as u64) + node_items(c.members@);
    let x3 = be_u64(c.roster@.len() as u64) + service_items(c.roster@);
    let x4 = settings_bytes(c);
    let x5 = text_bytes(c.circuit_management_type@);
    let x6 = blob_bytes(c.application_metadata@);
    let x7 = be_u32(c.protocol_version as u32);
    lemma_prefix_split(b, 0, x1 + x2 + x3 + x4 + x5 + x6, x7);
    lemma_prefix_split(b, 0, x1 + x2 + x3 + x4 + x5, x6);
    lemma_prefix_split(b, 0, x1 + x2 + x3 + x4, x5);
    lemma_prefix_split(b, 0, x1 + x2 + x3, x4);
    lemma_prefix_split(b, 0, x1 + x2, x3);
    lemma_prefix_split(b, 0, x1, x2);
}

/// A circuit's encoding determines its id.
pub proof fn lemma_circuit_id_determined(c1: Circuit, c2: Circuit)
    requires
        circuit_bytes(c1) == circuit_bytes(c2),
        circuit_bytes(c1).len() <= u64::MAX,
    ensures
        c1.circuit_id@ == c2.circuit_id@,
{
    let b = circuit_bytes(c1);
    assert(prefix_at(b, 0, b)) by {
        assert(b.subrange(0, b.len() as int) =~= b);
    }
    lemma_circuit_starts_with_id(b, c1);
    lemma_circuit_starts_with_id(b, c2);
    let u1 = encode_utf8(c1.circuit_id@);
    let u2 = encode_utf8(c2.circuit_id@);
    lemma_prefix_split(b, 0, be_u64(u1.len() as u64), u1);
    lemma_prefix_split(b, 0, be_u64(u2.len() as u64), u2);
    lemma_be_u64_injective(u1.len() as u64, u2.len() as u64);
    encode_utf8_decode_utf8(c1.circuit_id@);
    encode_utf8_decode_utf8(c2.circuit_id@);
}

} // verus!
