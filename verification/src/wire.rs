//! The wire codec: a deterministic, self-describing binary layout for
//! gossip messages, with a proved decode-of-encode round trip.
//!
//! Layout, in order: the sequence number (8 bytes, little endian), a
//! payload tag byte (0 = Ping, 1 = Ack, 2 = Join), the payload, then the
//! piggybacked updates as a 4-byte count followed by the member records.
//! A string is a 4-byte byte-length followed by its UTF-8 bytes; a member
//! is its address, a status byte, its incarnation (8 bytes) and its
//! labels as a 4-byte count of key/value string pairs.

use vstd::prelude::*;

use vstd::arithmetic::div_mod::lemma_fundamental_div_mod;

verus! {

/// 256 to the `n`-th power: the number of values of an `n`-byte field.
pub open spec fn pow256(n: nat) -> int
    decreases n,
{
    if n == 0 {
        1
    } else {
        256 * pow256((n - 1) as nat)
    }
}

/// Little-endian encoding of `v` in `n` bytes.
pub open spec fn enc_le(v: int, n: nat) -> Seq<u8>
    recommends
        0 <= v < pow256(n),
    decreases n,
{
    if n == 0 {
        Seq::empty()
    } else {
        seq![(v % 256) as u8] + enc_le(v / 256, (n - 1) as nat)
    }
}

/// Little-endian value of a byte string.
pub open spec fn dec_le(b: Seq<u8>) -> int
    decreases b.len(),
{
    if b.len() == 0 {
        0
    } else {
        b[0] + 256 * dec_le(b.drop_first())
    }
}

pub proof fn lemma_enc_le_len(v: int, n: nat)
    ensures
        enc_le(v, n).len() == n,
    decreases n,
{
    if n > 0 {
        lemma_enc_le_len(v / 256, (n - 1) as nat);
    }
}

/// A decoded `n`-byte field lies below `pow256(n)`.
pub proof fn lemma_dec_le_bound(b: Seq<u8>)
    ensures
        0 <= dec_le(b) < pow256(b.len()),
    decreases b.len(),
{
    if b.len() > 0 {
        lemma_dec_le_bound(b.drop_first());
        assert(dec_le(b) == b[0] + 256 * dec_le(b.drop_first()));
        assert(pow256(b.len()) == 256 * pow256((b.len() - 1) as nat));
        assert(b[0] < 256);
        assert(dec_le(b) < pow256(b.len())) by (nonlinear_arith)
            requires
                dec_le(b) == b[0] + 256 * dec_le(b.drop_first()),
                pow256(b.len()) == 256 * pow256((b.len() - 1) as nat),
                b[0] < 256,
                b.drop_first().len() == b.len() - 1,
                0 <= dec_le(b.drop_first()) < pow256(b.drop_first().len()),
        ;
    }
}

/// Decoding inverts encoding on values that fit the field.
pub proof fn lemma_dec_enc_le(v: int, n: nat)
    requires
        0 <= v < pow256(n),
    ensures
        dec_le(enc_le(v, n)) == v,
    decreases n,
{
    if n > 0 {
        assert(0 <= v / 256 && v / 256 < pow256((n - 1) as nat)) by (nonlinear_arith)
            requires
                0 <= v < pow256(n),
                pow256(n) == 256 * pow256((n - 1) as nat),
        ;
        lemma_dec_enc_le(v / 256, (n - 1) as nat);
        let b = enc_le(v, n);
        assert(b.drop_first() =~= enc_le(v / 256, (n - 1) as nat));
        lemma_fundamental_div_mod(v, 256);
    }
}

/// The values of the codec's two field sizes.
pub proof fn lemma_pow256_8()
    ensures
        pow256(4) == 0x1_0000_0000,
        pow256(8) == 0x1_0000_0000_0000_0000,
{
    reveal_with_fuel(pow256, 9);
}

/// Append the 8-byte little-endian encoding of `v`.
pub fn push_u64(out: &mut Vec<u8>, v: u64)
    ensures
        final(out)@ == old(out)@ + enc_le(v as int, 8),
{
    proof {
        lemma_pow256_8();
        lemma_enc_le_len(v as int, 8);
    }
    let ghost orig = out@;
    let mut x: u64 = v;
    let mut j: usize = 0;
    while j < 8
        invariant
            j <= 8,
            enc_le(v as int, 8) =~= out@.skip(orig.len() as int) + enc_le(x as int, (8 - j) as nat),
            out@.len() == orig.len() + j,
            out@.subrange(0, orig.len() as int) =~= orig,
        decreases 8 - j,
    {
        let ghost pre = out@;
        let ghost xi = x as int;
        out.push((x % 256) as u8);
        x = x / 256;
        j = j + 1;
        proof {
            assert(enc_le(xi, (8 - (j - 1)) as nat) =~= seq![(xi % 256) as u8] + enc_le(
                xi / 256,
                (8 - j) as nat,
            ));
            assert(out@.skip(orig.len() as int) =~= pre.skip(orig.len() as int) + seq![
                (xi % 256) as u8,
            ]);
            assert(out@.skip(orig.len() as int) + enc_le(x as int, (8 - j) as nat) =~= pre.skip(
                orig.len() as int,
            ) + enc_le(xi, (8 - (j - 1)) as nat));
            assert(out@.subrange(0, orig.len() as int) =~= orig);
        }
    }
    proof {
        assert(enc_le(x as int, 0) =~= Seq::<u8>::empty());
        assert(out@ =~= orig + enc_le(v as int, 8));
    }
}

/// Append the 4-byte little-endian encoding of `v`.
pub fn push_u32(out: &mut Vec<u8>, v: u32)
    ensures
        final(out)@ == old(out)@ + enc_le(v as int, 4),
{
    proof {
        lemma_pow256_8();
        lemma_enc_le_len(v as int, 4);
    }
    let ghost orig = out@;
    let mut x: u32 = v;
    let mut j: usize = 0;
    while j < 4
        invariant
            j <= 4,
            enc_le(v as int, 4) =~= out@.skip(orig.len() as int) + enc_le(x as int, (4 - j) as nat),
            out@.len() == orig.len() + j,
            out@.subrange(0, orig.len() as int) =~= orig,
        decreases 4 - j,
    {
        let ghost pre = out@;
        let ghost xi = x as int;
        out.push((x % 256) as u8);
        x = x / 256;
        j = j + 1;
        proof {
            assert(enc_le(xi, (4 - (j - 1)) as nat) =~= seq![(xi % 256) as u8] + enc_le(
                xi / 256,
                (4 - j) as nat,
            ));
            assert(out@.skip(orig.len() as int) =~= pre.skip(orig.len() as int) + seq![
                (xi % 256) as u8,
            ]);
            assert(out@.skip(orig.len() as int) + enc_le(x as int, (4 - j) as nat) =~= pre.skip(
                orig.len() as int,
            ) + enc_le(xi, (4 - (j - 1)) as nat));
            assert(out@.subrange(0, orig.len() as int) =~= orig);
        }
    }
    proof {
        assert(enc_le(x as int, 0) =~= Seq::<u8>::empty());
        assert(out@ =~= orig + enc_le(v as int, 4));
    }
}

/// Read an 8-byte little-endian field at offset `i`.
pub fn read_u64(b: &Vec<u8>, i: usize) -> (r: Option<(u64, usize)>)
    ensures
        r is Some <==> i + 8 <= b@.len(),
        r matches Some((v, j)) ==> v as int == dec_le(b@.subrange(i as int, i as int + 8)) && j
            == i + 8,
{
    if b.len() < 8 || i > b.len() - 8 {
        return None;
    }
    let ghost field = b@.subrange(i as int, i as int + 8);
    proof {
        lemma_pow256_8();
        lemma_dec_le_bound(field);
    }
    let mut acc: u64 = 0;
    let mut k: usize = 8;
    let mut pos: usize = i + 8;
    while k > 0
        invariant
            k <= 8,
            i + 8 <= b@.len(),
            pos == i + k,
            field == b@.subrange(i as int, i as int + 8),
            acc as int == dec_le(field.subrange(k as int, 8)),
            (acc as int) < pow256((8 - k) as nat),
        decreases k,
    {
        let ghost acc0 = acc as int;
        proof {
            assert(pow256((8 - (k - 1)) as nat) == 256 * pow256((8 - k) as nat));
            assert(256 * acc0 + 256 <= 256 * pow256((8 - k) as nat)) by (nonlinear_arith)
                requires
                    acc0 < pow256((8 - k) as nat),
                    acc0 >= 0,
            ;
            lemma_pow256_le(((8 - k) as nat) + 1, 8);
            lemma_pow256_8();
        }
        k = k - 1;
        pos = pos - 1;
        acc = acc * 256 + (b[pos] as u64);
        proof {
            let sub = field.subrange(k as int, 8);
            assert(sub.drop_first() =~= field.subrange(k as int + 1, 8));
            assert(sub[0] == b@[i + k]);
            assert(acc as int == sub[0] + 256 * dec_le(sub.drop_first()));
        }
    }
    proof {
        assert(field.subrange(0, 8) =~= field);
    }
    Some((acc, i + 8))
}

/// Read a 4-byte little-endian field at offset `i`.
pub fn read_u32(b: &Vec<u8>, i: usize) -> (r: Option<(u32, usize)>)
    ensures
        r is Some <==> i + 4 <= b@.len(),
        r matches Some((v, j)) ==> v as int == dec_le(b@.subrange(i as int, i as int + 4)) && j
            == i + 4,
{
    if b.len() < 4 || i > b.len() - 4 {
        return None;
    }
    let ghost field = b@.subrange(i as int, i as int + 4);
    proof {
        lemma_pow256_8();
        lemma_dec_le_bound(field);
    }
    let mut acc: u32 = 0;
    let mut k: usize = 4;
    let mut pos: usize = i + 4;
    while k > 0
        invariant
            k <= 4,
            i + 4 <= b@.len(),
            pos == i + k,
            field == b@.subrange(i as int, i as int + 4),
            acc as int == dec_le(field.subrange(k as int, 4)),
            (acc as int) < pow256((4 - k) as nat),
        decreases k,
    {
        let ghost acc0 = acc as int;
        proof {
            assert(pow256((4 - (k - 1)) as nat) == 256 * pow256((4 - k) as nat));
            assert(256 * acc0 + 256 <= 256 * pow256((4 - k) as nat)) by (nonlinear_arith)
                requires
                    acc0 < pow256((4 - k) as nat),
                    acc0 >= 0,
            ;
            lemma_pow256_le(((4 - k) as nat) + 1, 4);
            lemma_pow256_8();
        }
        k = k - 1;
        pos = pos - 1;
        acc = acc * 256 + (b[pos] as u32);
        proof {
            let sub = field.subrange(k as int, 4);
            assert(sub.drop_first() =~= field.subrange(k as int + 1, 4));
            assert(sub[0] == b@[i + k]);
            assert(acc as int == sub[0] + 256 * dec_le(sub.drop_first()));
        }
    }
    proof {
        assert(field.subrange(0, 4) =~= field);
    }
    Some((acc, i + 4))
}

/// `pow256` is monotone.
pub proof fn lemma_pow256_le(m: nat, n: nat)
    requires
        m <= n,
    ensures
        pow256(m) <= pow256(n),
    decreases n,
{
    if m < n && n > 0 {
        lemma_pow256_le(m, (n - 1) as nat);
        lemma_pow256_pos((n - 1) as nat);
        assert(pow256(n) == 256 * pow256((n - 1) as nat));
        assert(pow256((n - 1) as nat) <= 256 * pow256((n - 1) as nat)) by (nonlinear_arith)
            requires
                pow256((n - 1) as nat) >= 1,
        ;
    }
}

/// `pow256` is positive.
pub proof fn lemma_pow256_pos(n: nat)
    ensures
        pow256(n) >= 1,
    decreases n,
{
    if n > 0 {
        lemma_pow256_pos((n - 1) as nat);
    }
}

} // verus!

use vstd::string::StrSliceExecFns;
use vstd::utf8::decode_utf8;
use vstd::utf8::encode_utf8;
use vstd::utf8::encode_utf8_decode_utf8;
use vstd::utf8::encode_utf8_valid_utf8;
use vstd::utf8::valid_utf8;

verus! {

/// A string fits the wire format when its UTF-8 encoding fits the
/// 4-byte length field.
pub open spec fn wf_str(s: Seq<char>) -> bool {
    encode_utf8(s).len() < pow256(4)
}

/// Wire form of a string: a 4-byte byte-length, then the UTF-8 bytes.
pub open spec fn enc_str(s: Seq<char>) -> Seq<u8> {
    enc_le(encode_utf8(s).len() as int, 4) + encode_utf8(s)
}

/// Parse a string field at offset `i`: the byte-length, then that many
/// bytes, which must be valid UTF-8.
pub open spec fn parse_str(b: Seq<u8>, i: int) -> Option<(Seq<char>, int)> {
    if 0 <= i && i + 4 <= b.len() {
        let l = dec_le(b.subrange(i, i + 4));
        if i + 4 + l <= b.len() && valid_utf8(b.subrange(i + 4, i + 4 + l)) {
            Some((decode_utf8(b.subrange(i + 4, i + 4 + l)), i + 4 + l))
        } else {
            None
        }
    } else {
        None
    }
}

/// Parsing inverts encoding for a string: wherever an encoded string
/// stands in a buffer, parsing at its start yields the string back.
pub proof fn lemma_parse_str_enc(b: Seq<u8>, i: int, s: Seq<char>)
    requires
        wf_str(s),
        0 <= i,
        i + enc_str(s).len() <= b.len(),
        b.subrange(i, i + enc_str(s).len() as int) == enc_str(s),
    ensures
        parse_str(b, i) == Some((s, i + enc_str(s).len() as int)),
        enc_str(s).len() == 4 + encode_utf8(s).len(),
{
    let u = encode_utf8(s);
    lemma_enc_le_len(u.len() as int, 4);
    assert(enc_str(s).len() == 4 + u.len());
    assert(b.subrange(i, i + 4) =~= enc_le(u.len() as int, 4));
    lemma_dec_enc_le(u.len() as int, 4);
    assert(dec_le(b.subrange(i, i + 4)) == u.len());
    assert forall|k: int| 0 <= k < u.len() implies b.subrange(
        i + 4,
        i + 4 + u.len() as int,
    )[k] == u[k] by {
        assert(b.subrange(i, i + enc_str(s).len() as int)[4 + k] == u[k]);
        assert(b[i + 4 + k] == u[k]);
    }
    assert(b.subrange(i + 4, i + 4 + u.len() as int) =~= u);
    encode_utf8_valid_utf8(s);
    encode_utf8_decode_utf8(s);
}

/// Relies on `String::from_utf8`: it returns the string whose UTF-8
/// encoding is the given byte vector, exactly when those bytes are valid
/// UTF-8, and fails otherwise.
#[verifier::external_body]
fn bytes_to_string(v: Vec<u8>) -> (r: Option<String>)
    ensures
        r is Some <==> valid_utf8(v@),
        r matches Some(s) ==> encode_utf8(s@) == v@,
{
    String::from_utf8(v).ok()
}

/// Append the wire form of a string.
pub fn push_str(out: &mut Vec<u8>, s: &String)
    requires
        wf_str(s@),
    ensures
        final(out)@ == old(out)@ + enc_str(s@),
{
    let bytes: Vec<u8> = s.as_str().as_bytes_vec();
    proof {
        lemma_pow256_8();
    }
    push_u32(out, bytes.len() as u32);
    let ghost mid = out@;
    let mut k: usize = 0;
    while k < bytes.len()
        invariant
            k <= bytes.len(),
            bytes@ == encode_utf8(s@),
            out@ =~= mid + bytes@.subrange(0, k as int),
        decreases bytes.len() - k,
    {
        out.push(bytes[k]);
        k = k + 1;
        proof {
            assert(out@ =~= mid + bytes@.subrange(0, k as int));
        }
    }
    proof {
        assert(bytes@.subrange(0, bytes@.len() as int) =~= bytes@);
        assert(out@ =~= old(out)@ + enc_str(s@));
    }
}

/// Read a string field at offset `i`.
pub fn read_str(b: &Vec<u8>, i: usize) -> (r: Option<(String, usize)>)
    ensures
        r is Some <==> parse_str(b@, i as int) is Some,
        r matches Some((s, j)) ==> parse_str(b@, i as int) == Some((s@, j as int)) && j <= b@.len(),
    {
    match read_u32(b, i) {
        None => None,
        Some((len32, j)) => {
            let len = len32 as usize;
            proof {
                lemma_pow256_8();
                lemma_dec_le_bound(b@.subrange(i as int, i as int + 4));
            }
            if len <= b.len() - j {
                let end: usize = j + len;
                let mut bytes: Vec<u8> = Vec::new();
                let mut pos: usize = j;
                while pos < end
                    invariant
                        j <= pos <= end,
                        end == j + len,
                        end <= b@.len(),
                        bytes@ =~= b@.subrange(j as int, pos as int),
                    decreases end - pos,
                {
                    bytes.push(b[pos]);
                    pos = pos + 1;
                    proof {
                        assert(bytes@ =~= b@.subrange(j as int, pos as int));
                    }
                }
                let ghost sub = b@.subrange(j as int, j as int + len as int);
                match bytes_to_string(bytes) {
                    None => None,
                    Some(s) => {
                        proof {
                            encode_utf8_decode_utf8(s@);
                        }
                        Some((s, j + len))
                    },
                }
            } else {
                None
            }
        },
    }
}

} // verus!

use crate::member::MemberView;
use crate::member::SerfMember;
use crate::member::SerfStatus;

verus! {

/// Typed payload of a gossip message.
#[derive(Debug)]
pub enum SerfMessageType {
    /// A liveness probe, carrying the origin's address.
    Ping(String),
    /// The reply to a probe, carrying the responder's address.
    Ack(String),
    /// A membership announcement, carrying the announced member.
    Join(SerfMember),
}

/// One wire message: a sequence number, a typed payload, and the
/// piggybacked membership updates.
#[derive(Debug)]
pub struct SerfMessage {
    pub msg_num: u64,
    pub msg_type: SerfMessageType,
    pub updates: Vec<SerfMember>,
}

/// Error for a truncated or malformed inbound datagram.
#[derive(Clone, Copy, PartialEq, Eq, Structural, Debug)]
pub struct DecodeError;

/// Mathematical model of a payload.
#[verifier::ext_equal]
pub ghost enum MessageTypeView {
    Ping(Seq<char>),
    Ack(Seq<char>),
    Join(MemberView),
}

/// Mathematical model of a wire message.
#[verifier::ext_equal]
pub ghost struct MessageView {
    pub msg_num: u64,
    pub msg_type: MessageTypeView,
    pub updates: Seq<MemberView>,
}

impl View for SerfMessageType {
    type V = MessageTypeView;

    open spec fn view(&self) -> MessageTypeView {
        match self {
            SerfMessageType::Ping(a) => MessageTypeView::Ping(a@),
            SerfMessageType::Ack(a) => MessageTypeView::Ack(a@),
            SerfMessageType::Join(m) => MessageTypeView::Join(m@),
        }
    }
}

impl View for SerfMessage {
    type V = MessageView;

    open spec fn view(&self) -> MessageView {
        MessageView {
            msg_num: self.msg_num,
            msg_type: self.msg_type@,
            updates: Seq::new(self.updates@.len(), |i: int| self.updates@[i]@),
        }
    }
}

/// Wire byte for a status.
pub open spec fn status_byte(s: SerfStatus) -> u8 {
    match s {
        SerfStatus::Up => 0,
        SerfStatus::Suspect => 1,
        SerfStatus::Down => 2,
    }
}

/// Wire form of a label list: each key and value in order.
pub open spec fn enc_labels(ls: Seq<(Seq<char>, Seq<char>)>) -> Seq<u8>
    decreases ls.len(),
{
    if ls.len() == 0 {
        Seq::empty()
    } else {
        enc_str(ls[0].0) + enc_str(ls[0].1) + enc_labels(ls.drop_first())
    }
}

/// Wire form of a member record.
pub open spec fn enc_member(m: MemberView) -> Seq<u8> {
    enc_str(m.addr) + seq![status_byte(m.status)] + enc_le(m.incarnation as int, 8) + enc_le(
        m.labels.len() as int,
        4,
    ) + enc_labels(m.labels)
}

/// Wire form of a member list.
pub open spec fn enc_members(ms: Seq<MemberView>) -> Seq<u8>
    decreases ms.len(),
{
    if ms.len() == 0 {
        Seq::empty()
    } else {
        enc_member(ms[0]) + enc_members(ms.drop_first())
    }
}

/// Wire form of a payload: a tag byte, then the payload fields.
pub open spec fn enc_payload(t: MessageTypeView) -> Seq<u8> {
    match t {
        MessageTypeView::Ping(a) => seq![0u8] + enc_str(a),
        MessageTypeView::Ack(a) => seq![1u8] + enc_str(a),
        MessageTypeView::Join(m) => seq![2u8] + enc_member(m),
    }
}

/// Wire form of a whole message.
pub open spec fn enc_msg(m: MessageView) -> Seq<u8> {
    enc_le(m.msg_num as int, 8) + enc_payload(m.msg_type) + enc_le(m.updates.len() as int, 4)
        + enc_members(m.updates)
}

/// A member fits the wire format: its strings and its label count fit
/// their length fields.
pub open spec fn wf_member(m: MemberView) -> bool {
    &&& wf_str(m.addr)
    &&& m.labels.len() < pow256(4)
    &&& forall|k: int|
        0 <= k < m.labels.len() ==> wf_str((#[trigger] m.labels[k]).0) && wf_str(m.labels[k].1)
}

/// A message fits the wire format.
pub open spec fn wf_msg(m: MessageView) -> bool {
    &&& match m.msg_type {
        MessageTypeView::Ping(a) => wf_str(a),
        MessageTypeView::Ack(a) => wf_str(a),
        MessageTypeView::Join(mm) => wf_member(mm),
    }
    &&& m.updates.len() < pow256(4)
    &&& forall|k: int| 0 <= k < m.updates.len() ==> wf_member(#[trigger] m.updates[k])
}

/// Parse a status byte.
pub open spec fn parse_status(b: Seq<u8>, i: int) -> Option<(SerfStatus, int)> {
    if 0 <= i < b.len() {
        if b[i] == 0 {
            Some((SerfStatus::Up, i + 1))
        } else if b[i] == 1 {
            Some((SerfStatus::Suspect, i + 1))
        } else if b[i] == 2 {
            Some((SerfStatus::Down, i + 1))
        } else {
            None
        }
    } else {
        None
    }
}

/// Parse `n` label pairs.
pub open spec fn parse_labels(b: Seq<u8>, i: int, n: nat) -> Option<
    (Seq<(Seq<char>, Seq<char>)>, int),
>
    decreases n,
{
    if n == 0 {
        Some((Seq::empty(), i))
    } else {
        match parse_str(b, i) {
            None => None,
            Some((k, i1)) => match parse_str(b, i1) {
                None => None,
                Some((v, i2)) => match parse_labels(b, i2, (n - 1) as nat) {
                    None => None,
                    Some((rest, j)) => Some((seq![(k, v)] + rest, j)),
                },
            },
        }
    }
}

/// Parse one member record.
pub open spec fn parse_member(b: Seq<u8>, i: int) -> Option<(MemberView, int)> {
    match parse_str(b, i) {
        None => None,
        Some((addr, i1)) => match parse_status(b, i1) {
            None => None,
            Some((st, i2)) => if i2 + 8 <= b.len() && i2 + 12 <= b.len() {
                let inc = dec_le(b.subrange(i2, i2 + 8));
                let n = dec_le(b.subrange(i2 + 8, i2 + 12));
                match parse_labels(b, i2 + 12, n as nat) {
                    None => None,
                    Some((ls, j)) => Some(
                        (
                            MemberView {
                                addr,
                                status: st,
                                incarnation: inc as u64,
                                labels: ls,
                            },
                            j,
                        ),
                    ),
                }
            } else {
                None
            },
        },
    }
}

/// Parse `n` member records.
pub open spec fn parse_members(b: Seq<u8>, i: int, n: nat) -> Option<(Seq<MemberView>, int)>
    decreases n,
{
    if n == 0 {
        Some((Seq::empty(), i))
    } else {
        match parse_member(b, i) {
            None => None,
            Some((m, i1)) => match parse_members(b, i1, (n - 1) as nat) {
                None => None,
                Some((rest, j)) => Some((seq![m] + rest, j)),
            },
        }
    }
}

/// Parse a whole message from the start of a buffer. Bytes beyond the
/// message are ignored: a datagram buffer may be larger than the
/// message it holds.
pub open spec fn parse_msg(b: Seq<u8>) -> Option<MessageView> {
    if b.len() >= 9 {
        let num = dec_le(b.subrange(0, 8));
        let tag = b[8];
        let pr: Option<(MessageTypeView, int)> = if tag == 0 {
            match parse_str(b, 9) {
                None => None,
                Some((a, j)) => Some((MessageTypeView::Ping(a), j)),
            }
        } else if tag == 1 {
            match parse_str(b, 9) {
                None => None,
                Some((a, j)) => Some((MessageTypeView::Ack(a), j)),
            }
        } else if tag == 2 {
            match parse_member(b, 9) {
                None => None,
                Some((m, j)) => Some((MessageTypeView::Join(m), j)),
            }
        } else {
            None
        };
        match pr {
            None => None,
            Some((t, j)) => if j + 4 <= b.len() {
                let n = dec_le(b.subrange(j, j + 4));
                match parse_members(b, j + 4, n as nat) {
                    None => None,
                    Some((us, _end)) => Some(
                        MessageView { msg_num: num as u64, msg_type: t, updates: us },
                    ),
                }
            } else {
                None
            },
        }
    } else {
        None
    }
}

/// A part of an encoding, seen through the buffer that holds the whole:
/// if `total` stands in `b` at `i` and `part` stands in `total` at
/// `off`, then `part` stands in `b` at `i + off`.
pub proof fn lemma_part_at(b: Seq<u8>, i: int, total: Seq<u8>, off: int, part: Seq<u8>)
    requires
        0 <= i,
        i + total.len() <= b.len(),
        b.subrange(i, i + total.len() as int) == total,
        0 <= off,
        off + part.len() <= total.len(),
        forall|k: int| 0 <= k < part.len() ==> total[off + k] == #[trigger] part[k],
    ensures
        b.subrange(i + off, i + off + part.len() as int) == part,
{
    assert forall|k: int| 0 <= k < part.len() implies b.subrange(
        i + off,
        i + off + part.len() as int,
    )[k] == part[k] by {
        assert(b.subrange(i, i + total.len() as int)[off + k] == total[off + k]);
    }
    assert(b.subrange(i + off, i + off + part.len() as int) =~= part);
}

} // verus!

verus! {

/// Appending one label pair extends the encoding on the right.
pub proof fn lemma_enc_labels_push(ls: Seq<(Seq<char>, Seq<char>)>, p: (Seq<char>, Seq<char>))
    ensures
        enc_labels(ls.push(p)) =~= enc_labels(ls) + enc_str(p.0) + enc_str(p.1),
    decreases ls.len(),
{
    let lsp = ls.push(p);
    if ls.len() == 0 {
        assert(lsp[0] == p);
        assert(lsp.drop_first() =~= Seq::<(Seq<char>, Seq<char>)>::empty());
        assert(enc_labels(lsp) == enc_str(p.0) + enc_str(p.1) + enc_labels(lsp.drop_first()));
        assert(enc_labels(lsp.drop_first()).len() == 0);
        assert(enc_labels(ls).len() == 0);
        assert(enc_labels(lsp) =~= enc_labels(ls) + enc_str(p.0) + enc_str(p.1));
    } else {
        assert(lsp[0] == ls[0]);
        assert(enc_labels(lsp) == enc_str(lsp[0].0) + enc_str(lsp[0].1) + enc_labels(
            lsp.drop_first(),
        ));
        assert(lsp.drop_first() =~= ls.drop_first().push(p));
        lemma_enc_labels_push(ls.drop_first(), p);
        assert(enc_labels(ls) == enc_str(ls[0].0) + enc_str(ls[0].1) + enc_labels(
            ls.drop_first(),
        ));
        assert(enc_labels(lsp) =~= enc_labels(ls) + enc_str(p.0) + enc_str(p.1));
    }
}

/// Appending one member extends the encoding on the right.
pub proof fn lemma_enc_members_push(ms: Seq<MemberView>, m: MemberView)
    ensures
        enc_members(ms.push(m)) =~= enc_members(ms) + enc_member(m),
    decreases ms.len(),
{
    let msp = ms.push(m);
    if ms.len() == 0 {
        assert(msp[0] == m);
        assert(msp.drop_first() =~= Seq::<MemberView>::empty());
        assert(enc_members(msp) == enc_member(m) + enc_members(msp.drop_first()));
        assert(enc_members(msp.drop_first()).len() == 0);
        assert(enc_members(ms).len() == 0);
        assert(enc_members(msp) =~= enc_members(ms) + enc_member(m));
    } else {
        assert(msp[0] == ms[0]);
        assert(enc_members(msp) == enc_member(msp[0]) + enc_members(msp.drop_first()));
        assert(msp.drop_first() =~= ms.drop_first().push(m));
        lemma_enc_members_push(ms.drop_first(), m);
        assert(enc_members(ms) == enc_member(ms[0]) + enc_members(ms.drop_first()));
        assert(enc_members(msp) =~= enc_members(ms) + enc_member(m));
    }
}

/// Parsing inverts encoding for a label list standing in a buffer.
#[verifier::rlimit(30)]
pub proof fn lemma_parse_labels_enc(b: Seq<u8>, i: int, ls: Seq<(Seq<char>, Seq<char>)>)
    requires
        forall|k: int|
            0 <= k < ls.len() ==> wf_str((#[trigger] ls[k]).0) && wf_str(ls[k].1),
        0 <= i,
        i + enc_labels(ls).len() <= b.len(),
        b.subrange(i, i + enc_labels(ls).len() as int) == enc_labels(ls),
    ensures
        parse_labels(b, i, ls.len()) == Some((ls, i + enc_labels(ls).len() as int)),
    decreases ls.len(),
{
    if ls.len() == 0 {
        assert(ls =~= Seq::<(Seq<char>, Seq<char>)>::empty());
        assert(parse_labels(b, i, 0) == Some((ls, i)));
    } else {
        let total = enc_labels(ls);
        let ek = enc_str(ls[0].0);
        let ev = enc_str(ls[0].1);
        let er = enc_labels(ls.drop_first());
        assert(total =~= ek + ev + er);
        lemma_part_at(b, i, total, 0, ek);
        lemma_parse_str_enc(b, i, ls[0].0);
        let i1 = i + ek.len() as int;
        lemma_part_at(b, i, total, ek.len() as int, ev);
        lemma_parse_str_enc(b, i1, ls[0].1);
        let i2 = i1 + ev.len() as int;
        lemma_part_at(b, i, total, ek.len() + ev.len() as int, er);
        assert forall|k: int|
            0 <= k < ls.drop_first().len() implies wf_str(
            (#[trigger] ls.drop_first()[k]).0,
        ) && wf_str(ls.drop_first()[k].1) by {
            assert(ls.drop_first()[k] == ls[k + 1]);
            assert(wf_str((#[trigger] ls[k + 1]).0) && wf_str(ls[k + 1].1));
        }
        lemma_parse_labels_enc(b, i2, ls.drop_first());
        assert(seq![(ls[0].0, ls[0].1)] + ls.drop_first() =~= ls);
        assert(parse_labels(b, i, ls.len()) == Some((ls, i + total.len() as int)));
    }
}

/// Parsing inverts encoding for a member record standing in a buffer.
#[verifier::rlimit(30)]
pub proof fn lemma_parse_member_enc(b: Seq<u8>, i: int, m: MemberView)
    requires
        wf_member(m),
        0 <= i,
        i + enc_member(m).len() <= b.len(),
        b.subrange(i, i + enc_member(m).len() as int) == enc_member(m),
    ensures
        parse_member(b, i) == Some((m, i + enc_member(m).len() as int)),
{
    let total = enc_member(m);
    let ea = enc_str(m.addr);
    let es = seq![status_byte(m.status)];
    let ei = enc_le(m.incarnation as int, 8);
    let ec = enc_le(m.labels.len() as int, 4);
    let el = enc_labels(m.labels);
    lemma_enc_le_len(m.incarnation as int, 8);
    lemma_enc_le_len(m.labels.len() as int, 4);
    assert(total =~= ea + es + ei + ec + el);
    lemma_part_at(b, i, total, 0, ea);
    lemma_parse_str_enc(b, i, m.addr);
    let i1 = i + ea.len() as int;
    assert(b.subrange(i, i + total.len() as int)[ea.len() as int] == total[ea.len() as int]);
    assert(b[i1] == status_byte(m.status));
    assert(parse_status(b, i1) == Some((m.status, i1 + 1))) by {
        match m.status {
            SerfStatus::Up => {},
            SerfStatus::Suspect => {},
            SerfStatus::Down => {},
        }
    }
    let i2 = i1 + 1;
    lemma_part_at(b, i, total, ea.len() as int + 1, ei);
    lemma_pow256_8();
    lemma_dec_enc_le(m.incarnation as int, 8);
    assert(dec_le(b.subrange(i2, i2 + 8)) == m.incarnation as int);
    lemma_part_at(b, i, total, ea.len() as int + 9, ec);
    lemma_dec_enc_le(m.labels.len() as int, 4);
    assert(dec_le(b.subrange(i2 + 8, i2 + 12)) == m.labels.len() as int);
    lemma_part_at(b, i, total, ea.len() as int + 13, el);
    assert forall|k: int|
        0 <= k < m.labels.len() implies wf_str((#[trigger] m.labels[k]).0) && wf_str(
        m.labels[k].1,
    ) by {
        assert(wf_member(m));
    }
    lemma_parse_labels_enc(b, i2 + 12, m.labels);
    match parse_member(b, i) {
        None => {
            assert(false);
        },
        Some((pm, j)) => {
            assert(pm =~= m);
            assert(j == i + total.len() as int);
        },
    }
}

/// Parsing inverts encoding for a member list standing in a buffer.
pub proof fn lemma_parse_members_enc(b: Seq<u8>, i: int, ms: Seq<MemberView>)
    requires
        forall|k: int| 0 <= k < ms.len() ==> wf_member(#[trigger] ms[k]),
        0 <= i,
        i + enc_members(ms).len() <= b.len(),
        b.subrange(i, i + enc_members(ms).len() as int) == enc_members(ms),
    ensures
        parse_members(b, i, ms.len()) == Some((ms, i + enc_members(ms).len() as int)),
    decreases ms.len(),
{
    if ms.len() == 0 {
        assert(ms =~= Seq::<MemberView>::empty());
        assert(parse_members(b, i, 0) == Some((ms, i)));
    } else {
        let total = enc_members(ms);
        let em = enc_member(ms[0]);
        let er = enc_members(ms.drop_first());
        assert(total =~= em + er);
        lemma_part_at(b, i, total, 0, em);
        lemma_parse_member_enc(b, i, ms[0]);
        let i1 = i + em.len() as int;
        lemma_part_at(b, i, total, em.len() as int, er);
        assert forall|k: int| 0 <= k < ms.drop_first().len() implies wf_member(
            #[trigger] ms.drop_first()[k],
        ) by {
            assert(ms.drop_first()[k] == ms[k + 1]);
        }
        lemma_parse_members_enc(b, i1, ms.drop_first());
        assert(seq![ms[0]] + ms.drop_first() =~= ms);
        assert(parse_members(b, i, ms.len()) == Some((ms, i + total.len() as int)));
    }
}

/// The codec round trip: parsing the encoding of any well-formed
/// message yields exactly that message.
pub proof fn lemma_decode_encode(m: MessageView)
    requires
        wf_msg(m),
    ensures
        parse_msg(enc_msg(m)) == Some(m),
{
    let b = enc_msg(m);
    let eh = enc_le(m.msg_num as int, 8);
    let ep = enc_payload(m.msg_type);
    let ec = enc_le(m.updates.len() as int, 4);
    let eu = enc_members(m.updates);
    lemma_enc_le_len(m.msg_num as int, 8);
    lemma_enc_le_len(m.updates.len() as int, 4);
    assert(b =~= eh + ep + ec + eu);
    assert(b.subrange(0, b.len() as int) =~= b);
    lemma_part_at(b, 0, b, 0, eh);
    lemma_pow256_8();
    lemma_dec_enc_le(m.msg_num as int, 8);
    assert(dec_le(b.subrange(0, 8)) == m.msg_num as int);
    match m.msg_type {
        MessageTypeView::Ping(a) => {
            assert(ep =~= seq![0u8] + enc_str(a));
            assert(b[8] == 0);
            lemma_part_at(b, 0, b, 9, enc_str(a));
            lemma_parse_str_enc(b, 9, a);
        },
        MessageTypeView::Ack(a) => {
            assert(ep =~= seq![1u8] + enc_str(a));
            assert(b[8] == 1);
            lemma_part_at(b, 0, b, 9, enc_str(a));
            lemma_parse_str_enc(b, 9, a);
        },
        MessageTypeView::Join(mm) => {
            assert(ep =~= seq![2u8] + enc_member(mm));
            assert(b[8] == 2);
            lemma_part_at(b, 0, b, 9, enc_member(mm));
            lemma_parse_member_enc(b, 9, mm);
        },
    }
    let j = 8 + ep.len() as int;
    lemma_part_at(b, 0, b, j, ec);
    lemma_dec_enc_le(m.updates.len() as int, 4);
    assert(dec_le(b.subrange(j, j + 4)) == m.updates.len() as int);
    lemma_part_at(b, 0, b, j + 4, eu);
    lemma_parse_members_enc(b, j + 4, m.updates);
    match parse_msg(b) {
        None => {
            assert(false);
        },
        Some(pm) => {
            assert(pm =~= m);
        },
    }
}

} // verus!

verus! {

/// Deep view of a label vector.
pub open spec fn labels_view(ls: Seq<(String, String)>) -> Seq<(Seq<char>, Seq<char>)> {
    Seq::new(ls.len(), |k: int| (ls[k].0@, ls[k].1@))
}

/// Deep view of a member vector.
pub open spec fn members_view(ms: Seq<SerfMember>) -> Seq<MemberView> {
    Seq::new(ms.len(), |k: int| ms[k]@)
}

/// Append the wire form of one member record.
#[verifier::rlimit(30)]
pub fn push_member(out: &mut Vec<u8>, m: &SerfMember)
    requires
        wf_member(m@),
    ensures
        final(out)@ == old(out)@ + enc_member(m@),
{
    push_str(out, &m.addr);
    let sb: u8 = match m.status {
        SerfStatus::Up => 0,
        SerfStatus::Suspect => 1,
        SerfStatus::Down => 2,
    };
    out.push(sb);
    push_u64(out, m.incarnation);
    proof {
        lemma_pow256_8();
    }
    push_u32(out, m.labels.len() as u32);
    let ghost base = out@;
    let mut i: usize = 0;
    proof {
        assert(m@.labels.subrange(0, 0) =~= Seq::<(Seq<char>, Seq<char>)>::empty());
        assert(enc_labels(m@.labels.subrange(0, 0)).len() == 0);
        assert(out@ =~= base + enc_labels(m@.labels.subrange(0, 0)));
    }
    while i < m.labels.len()
        invariant
            i <= m.labels@.len(),
            wf_member(m@),
            out@ =~= base + enc_labels(m@.labels.subrange(0, i as int)),
        decreases m.labels@.len() - i,
    {
        let pair = &m.labels[i];
        proof {
            assert(i < m@.labels.len());
            assert(wf_str((#[trigger] m@.labels[i as int]).0) && wf_str(m@.labels[i as int].1));
            assert(m@.labels[i as int] == (m.labels@[i as int].0@, m.labels@[i as int].1@));
        }
        push_str(out, &pair.0);
        push_str(out, &pair.1);
        proof {
            lemma_enc_labels_push(m@.labels.subrange(0, i as int), m@.labels[i as int]);
            assert(m@.labels.subrange(0, i as int + 1) =~= m@.labels.subrange(0, i as int).push(
                m@.labels[i as int],
            ));
            assert(out@ =~= base + enc_labels(m@.labels.subrange(0, i as int + 1)));
        }
        i = i + 1;
    }
    proof {
        assert(m@.labels.subrange(0, m@.labels.len() as int) =~= m@.labels);
        assert(out@ =~= old(out)@ + enc_member(m@));
    }
}

/// Encode a message into its wire bytes.
pub fn encode_msg(m: &SerfMessage) -> (out: Vec<u8>)
    requires
        wf_msg(m@),
    ensures
        out@ == enc_msg(m@),
{
    let mut out: Vec<u8> = Vec::new();
    push_u64(&mut out, m.msg_num);
    match &m.msg_type {
        SerfMessageType::Ping(a) => {
            out.push(0u8);
            push_str(&mut out, a);
            proof {
                assert(out@ =~= enc_le(m@.msg_num as int, 8) + enc_payload(m@.msg_type));
            }
        },
        SerfMessageType::Ack(a) => {
            out.push(1u8);
            push_str(&mut out, a);
            proof {
                assert(out@ =~= enc_le(m@.msg_num as int, 8) + enc_payload(m@.msg_type));
            }
        },
        SerfMessageType::Join(mm) => {
            out.push(2u8);
            push_member(&mut out, mm);
            proof {
                assert(out@ =~= enc_le(m@.msg_num as int, 8) + enc_payload(m@.msg_type));
            }
        },
    }
    proof {
        lemma_pow256_8();
    }
    push_u32(&mut out, m.updates.len() as u32);
    let ghost base = out@;
    let mut i: usize = 0;
    proof {
        assert(m@.updates.subrange(0, 0) =~= Seq::<MemberView>::empty());
        assert(enc_members(m@.updates.subrange(0, 0)).len() == 0);
        assert(out@ =~= base + enc_members(m@.updates.subrange(0, 0)));
    }
    while i < m.updates.len()
        invariant
            i <= m.updates@.len(),
            wf_msg(m@),
            m@.updates.len() == m.updates@.len(),
            out@ =~= base + enc_members(m@.updates.subrange(0, i as int)),
        decreases m.updates@.len() - i,
    {
        proof {
            assert(m@.updates[i as int] == m.updates@[i as int]@);
            assert(wf_member(m@.updates[i as int]));
        }
        push_member(&mut out, &m.updates[i]);
        proof {
            lemma_enc_members_push(m@.updates.subrange(0, i as int), m@.updates[i as int]);
            assert(m@.updates.subrange(0, i as int + 1) =~= m@.updates.subrange(0, i as int).push(
                m@.updates[i as int],
            ));
            assert(out@ =~= base + enc_members(m@.updates.subrange(0, i as int + 1)));
        }
        i = i + 1;
    }
    proof {
        assert(m@.updates.subrange(0, m@.updates.len() as int) =~= m@.updates);
        assert(out@ =~= enc_msg(m@));
    }
    out
}

} // verus!

verus! {

/// Read a status byte at offset `i`.
fn read_status(b: &Vec<u8>, i: usize) -> (r: Option<(SerfStatus, usize)>)
    ensures
        r is Some <==> parse_status(b@, i as int) is Some,
        r matches Some((st, j)) ==> parse_status(b@, i as int) == Some((st, j as int)) && j
            <= b@.len(),
{
    if i < b.len() {
        let t = b[i];
        if t == 0 {
            Some((SerfStatus::Up, i + 1))
        } else if t == 1 {
            Some((SerfStatus::Suspect, i + 1))
        } else if t == 2 {
            Some((SerfStatus::Down, i + 1))
        } else {
            None
        }
    } else {
        None
    }
}

/// Read `n` label pairs starting at offset `i`.
fn read_labels(b: &Vec<u8>, i: usize, n: u32) -> (r: Option<(Vec<(String, String)>, usize)>)
    requires
        i <= b@.len(),
    ensures
        r is Some <==> parse_labels(b@, i as int, n as nat) is Some,
        r matches Some((ls, j)) ==> parse_labels(b@, i as int, n as nat) == Some(
            (labels_view(ls@), j as int),
        ) && j <= b@.len(),
{
    let mut acc: Vec<(String, String)> = Vec::new();
    let mut cur: usize = i;
    let mut k: u32 = 0;
    proof {
        assert(labels_view(acc@) =~= Seq::<(Seq<char>, Seq<char>)>::empty());
    }
    while k < n
        invariant
            k <= n,
            cur <= b@.len(),
            match parse_labels(b@, cur as int, (n - k) as nat) {
                None => parse_labels(b@, i as int, n as nat) is None,
                Some((tail, j)) => parse_labels(b@, i as int, n as nat) == Some(
                    (labels_view(acc@) + tail, j),
                ),
            },
        decreases n - k,
    {
        let ghost acc0 = acc@;
        let ghost cur0 = cur as int;
        let ghost rem0 = (n - k) as nat;
        match read_str(b, cur) {
            None => {
                return None;
            },
            Some((key, j1)) => {
                match read_str(b, j1) {
                    None => {
                        return None;
                    },
                    Some((val, j2)) => {
                        proof {
                            assert(parse_str(b@, cur0) == Some((key@, j1 as int)));
                            assert(parse_str(b@, j1 as int) == Some((val@, j2 as int)));
                        }
                        acc.push((key, val));
                        cur = j2;
                        k = k + 1;
                        proof {
                            assert(labels_view(acc@) =~= labels_view(acc0).push(
                                (acc@[acc@.len() - 1].0@, acc@[acc@.len() - 1].1@),
                            ));
                            match parse_labels(b@, cur as int, (n - k) as nat) {
                                None => {
                                    assert(parse_labels(b@, cur0, rem0) is None);
                                },
                                Some((tail, j)) => {
                                    assert(parse_labels(b@, cur0, rem0) == Some(
                                        (
                                            seq![
                                                (acc@[acc@.len() - 1].0@, acc@[acc@.len() - 1].1@),
                                            ] + tail,
                                            j,
                                        ),
                                    ));
                                    assert(labels_view(acc0) + (seq![
                                        (acc@[acc@.len() - 1].0@, acc@[acc@.len() - 1].1@),
                                    ] + tail) =~= labels_view(acc@) + tail);
                                },
                            }
                        }
                    },
                }
            },
        }
    }
    proof {
        assert(parse_labels(b@, cur as int, 0) == Some(
            (Seq::<(Seq<char>, Seq<char>)>::empty(), cur as int),
        ));
        assert(labels_view(acc@) + Seq::<(Seq<char>, Seq<char>)>::empty() =~= labels_view(acc@));
    }
    Some((acc, cur))
}

/// Read one member record at offset `i`.
fn read_member(b: &Vec<u8>, i: usize) -> (r: Option<(SerfMember, usize)>)
    ensures
        r is Some <==> parse_member(b@, i as int) is Some,
        r matches Some((m, j)) ==> parse_member(b@, i as int) == Some((m@, j as int)) && j
            <= b@.len(),
{
    match read_str(b, i) {
        None => None,
        Some((addr, i1)) => {
            match read_status(b, i1) {
                None => None,
                Some((st, i2)) => {
                    match read_u64(b, i2) {
                        None => None,
                        Some((inc, i3)) => {
                            match read_u32(b, i3) {
                                None => None,
                                Some((cnt, i4)) => {
                                    proof {
                                        lemma_pow256_8();
                                        lemma_dec_le_bound(
                                            b@.subrange(i2 as int, i2 as int + 8),
                                        );
                                    }
                                    match read_labels(b, i4, cnt) {
                                        None => None,
                                        Some((ls, j)) => {
                                            let m = SerfMember {
                                                addr,
                                                status: st,
                                                incarnation: inc,
                                                labels: ls,
                                            };
                                            proof {
                                                match parse_member(b@, i as int) {
                                                    None => {
                                                        assert(false);
                                                    },
                                                    Some((pm, pj)) => {
                                                        assert(m@ =~= pm);
                                                        assert(pj == j as int);
                                                    },
                                                }
                                            }
                                            Some((m, j))
                                        },
                                    }
                                },
                            }
                        },
                    }
                },
            }
        },
    }
}

/// Read `n` member records starting at offset `i`.
fn read_members(b: &Vec<u8>, i: usize, n: u32) -> (r: Option<(Vec<SerfMember>, usize)>)
    requires
        i <= b@.len(),
    ensures
        r is Some <==> parse_members(b@, i as int, n as nat) is Some,
        r matches Some((ms, j)) ==> parse_members(b@, i as int, n as nat) == Some(
            (members_view(ms@), j as int),
        ) && j <= b@.len(),
{
    let mut acc: Vec<SerfMember> = Vec::new();
    let mut cur: usize = i;
    let mut k: u32 = 0;
    proof {
        assert(members_view(acc@) =~= Seq::<MemberView>::empty());
    }
    while k < n
        invariant
            k <= n,
            cur <= b@.len(),
            match parse_members(b@, cur as int, (n - k) as nat) {
                None => parse_members(b@, i as int, n as nat) is None,
                Some((tail, j)) => parse_members(b@, i as int, n as nat) == Some(
                    (members_view(acc@) + tail, j),
                ),
            },
        decreases n - k,
    {
        let ghost acc0 = acc@;
        let ghost cur0 = cur as int;
        let ghost rem0 = (n - k) as nat;
        match read_member(b, cur) {
            None => {
                return None;
            },
            Some((m, j1)) => {
                proof {
                    assert(parse_member(b@, cur0) == Some((m@, j1 as int)));
                }
                acc.push(m);
                cur = j1;
                k = k + 1;
                proof {
                    assert(members_view(acc@) =~= members_view(acc0).push(
                        acc@[acc@.len() - 1]@,
                    ));
                    match parse_members(b@, cur as int, (n - k) as nat) {
                        None => {
                            assert(parse_members(b@, cur0, rem0) is None);
                        },
                        Some((tail, j)) => {
                            assert(parse_members(b@, cur0, rem0) == Some(
                                (seq![acc@[acc@.len() - 1]@] + tail, j),
                            ));
                            assert(members_view(acc0) + (seq![acc@[acc@.len() - 1]@] + tail)
                                =~= members_view(acc@) + tail);
                        },
                    }
                }
            },
        }
    }
    proof {
        assert(parse_members(b@, cur as int, 0) == Some(
            (Seq::<MemberView>::empty(), cur as int),
        ));
        assert(members_view(acc@) + Seq::<MemberView>::empty() =~= members_view(acc@));
    }
    Some((acc, cur))
}

/// Decode a message from the start of a datagram buffer. Fails exactly
/// on truncated or malformed input; trailing bytes beyond the message
/// are ignored.
pub fn decode_msg(b: &Vec<u8>) -> (r: Result<SerfMessage, DecodeError>)
    ensures
        r is Ok <==> parse_msg(b@) is Some,
        r matches Ok(m) ==> parse_msg(b@) == Some(m@),
{
    if b.len() < 9 {
        return Err(DecodeError);
    }
    let num = match read_u64(b, 0) {
        None => {
            return Err(DecodeError);
        },
        Some((v, _)) => v,
    };
    let tag = b[8];
    let parsed: Option<(SerfMessageType, usize)> = if tag == 0 {
        match read_str(b, 9) {
            None => None,
            Some((a, j)) => Some((SerfMessageType::Ping(a), j)),
        }
    } else if tag == 1 {
        match read_str(b, 9) {
            None => None,
            Some((a, j)) => Some((SerfMessageType::Ack(a), j)),
        }
    } else if tag == 2 {
        match read_member(b, 9) {
            None => None,
            Some((m, j)) => Some((SerfMessageType::Join(m), j)),
        }
    } else {
        None
    };
    match parsed {
        None => Err(DecodeError),
        Some((t, j)) => {
            match read_u32(b, j) {
                None => Err(DecodeError),
                Some((cnt, j1)) => {
                    proof {
                        lemma_pow256_8();
                        lemma_dec_le_bound(b@.subrange(j as int, j as int + 4));
                    }
                    match read_members(b, j1, cnt) {
                        None => Err(DecodeError),
                        Some((us, _end)) => {
                            let m = SerfMessage { msg_num: num, msg_type: t, updates: us };
                            proof {
                                match parse_msg(b@) {
                                    None => {
                                        assert(false);
                                    },
                                    Some(pm) => {
                                        assert(m@ =~= pm);
                                    },
                                }
                            }
                            Ok(m)
                        },
                    }
                },
            }
        },
    }
}

} // verus!
