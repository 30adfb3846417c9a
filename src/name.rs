use vstd::prelude::*;
use vstd::utf8::{decode_utf8, encode_utf8, valid_utf8};

use crate::error::DnsError;

verus! {

/// The byte that separates labels in the textual form of a name.
pub const DOT: u8 = 0x2e;

/// The longest label that a length byte can announce.
pub const MAX_LABEL_LEN: usize = 63;

/// The longest wire form of a name that the encoder emits.
pub const MAX_NAME_LEN: usize = 255;

/// How many compression pointers one name may follow. A name of at most 255
/// bytes has at most 127 labels, so a longer chain is taken for a loop.
pub const MAX_POINTER_HOPS: u64 = 128;

// ---------------------------------------------------------------------------
// Textual form
// ---------------------------------------------------------------------------

/// The textual form of a label sequence: the labels joined by dots.
pub open spec fn join_labels(ls: Seq<Seq<u8>>) -> Seq<u8>
    decreases ls.len(),
{
    if ls.len() == 0 {
        Seq::empty()
    } else if ls.len() == 1 {
        ls[0]
    } else {
        ls[0] + seq![DOT] + join_labels(ls.drop_first())
    }
}

/// The number of bytes of `t` before its first dot (all of `t` when it holds none).
pub open spec fn first_dot(t: Seq<u8>) -> nat
    decreases t.len(),
{
    if t.len() == 0 {
        0
    } else if t[0] == DOT {
        0
    } else {
        1 + first_dot(t.drop_first())
    }
}

/// `t` cut at each dot.
pub open spec fn split_dots(t: Seq<u8>) -> Seq<Seq<u8>>
    decreases t.len(),
{
    let k = first_dot(t);
    if k >= t.len() {
        seq![t]
    } else {
        seq![t.take(k as int)] + split_dots(t.skip(k + 1 as int))
    }
}

/// The labels of a name in textual form; the empty text is the root, with no labels.
pub open spec fn name_labels(t: Seq<u8>) -> Seq<Seq<u8>> {
    if t.len() == 0 {
        Seq::empty()
    } else {
        split_dots(t)
    }
}

// ---------------------------------------------------------------------------
// Wire form
// ---------------------------------------------------------------------------

/// The uncompressed wire form of a label sequence: each label behind its
/// length byte, then a zero byte.
pub open spec fn labels_wire(ls: Seq<Seq<u8>>) -> Seq<u8>
    decreases ls.len(),
{
    if ls.len() == 0 {
        seq![0u8]
    } else {
        seq![ls[0].len() as u8] + ls[0] + labels_wire(ls.drop_first())
    }
}

/// Why one label cannot be encoded, if it cannot.
pub open spec fn label_fault(l: Seq<u8>) -> Option<DnsError> {
    if l.len() == 0 {
        Some(DnsError::EmptyLabel)
    } else if l.len() > MAX_LABEL_LEN {
        Some(DnsError::LabelTooLong)
    } else {
        None
    }
}

/// The fault of the first label that cannot be encoded, if any.
pub open spec fn labels_fault(ls: Seq<Seq<u8>>) -> Option<DnsError>
    decreases ls.len(),
{
    if ls.len() == 0 {
        None
    } else {
        match label_fault(ls[0]) {
            Some(e) => Some(e),
            None => labels_fault(ls.drop_first()),
        }
    }
}

/// The encoding of the textual name `t`.
pub open spec fn name_wire(t: Seq<u8>) -> Result<Seq<u8>, DnsError> {
    let ls = name_labels(t);
    match labels_fault(ls) {
        Some(e) => Err(e),
        None => if labels_wire(ls).len() > MAX_NAME_LEN {
            Err(DnsError::NameTooLong)
        } else {
            Ok(labels_wire(ls))
        },
    }
}

/// The target of the compression pointer whose two bytes are `hi` and `lo`.
pub open spec fn pointer_target(hi: u8, lo: u8) -> int {
    (hi as int - 0xc0) * 256 + lo as int
}

/// Reads the name at `pos` of `buf`, `hops` pointers having been followed
/// already: its labels, and the offset just past its terminator or its first
/// pointer.
pub open spec fn name_at(buf: Seq<u8>, pos: int, hops: nat) -> Result<(Seq<Seq<u8>>, int), DnsError>
    decreases MAX_POINTER_HOPS - hops, buf.len() - pos,
{
    if pos < 0 || pos >= buf.len() {
        Err(DnsError::TruncatedInput)
    } else {
        let l = buf[pos];
        if l == 0 {
            Ok((Seq::empty(), pos + 1))
        } else if l >= 0xc0 {
            if pos + 1 >= buf.len() {
                Err(DnsError::TruncatedInput)
            } else if hops >= MAX_POINTER_HOPS {
                Err(DnsError::CompressionLoop)
            } else {
                match name_at(buf, pointer_target(l, buf[pos + 1]), hops + 1) {
                    Ok((ls, _)) => Ok((ls, pos + 2)),
                    Err(e) => Err(e),
                }
            }
        } else if l > MAX_LABEL_LEN {
            Err(DnsError::InvalidLabelLength)
        } else if pos + 1 + l > buf.len() {
            Err(DnsError::TruncatedInput)
        } else {
            match name_at(buf, pos + 1 + l, hops) {
                Ok((ls, end)) => Ok((seq![buf.subrange(pos + 1, pos + 1 + l)] + ls, end)),
                Err(e) => Err(e),
            }
        }
    }
}

/// The outcome of a read that had already gathered `acc` when it went on with
/// `rest`; `end` is where the name ended, if a pointer had fixed it already.
pub open spec fn continue_read(
    acc: Seq<Seq<u8>>,
    rest: Result<(Seq<Seq<u8>>, int), DnsError>,
    end: Option<usize>,
) -> Result<(Seq<Seq<u8>>, int), DnsError> {
    match rest {
        Ok((ls, e)) => Ok((
            acc + ls,
            match end {
                Some(x) => x as int,
                None => e,
            },
        )),
        Err(err) => Err(err),
    }
}

/// The text of a name as a string: its joined labels read as UTF-8.
pub open spec fn name_text(ls: Seq<Seq<u8>>) -> Seq<char> {
    utf8_text(join_labels(ls))
}

/// The text of a byte sequence: its UTF-8 decoding where it is valid UTF-8,
/// else what a lossy decoding makes of it.
pub open spec fn utf8_text(b: Seq<u8>) -> Seq<char> {
    if valid_utf8(b) {
        decode_utf8(b)
    } else {
        lossy_text(b)
    }
}

/// What `String::from_utf8_lossy` makes of a byte sequence.
pub uninterp spec fn lossy_text(b: Seq<u8>) -> Seq<char>;

/// Relies on `String::from_utf8_lossy`: valid UTF-8 is decoded with no
/// replacement, and otherwise the text depends on the bytes alone.
#[verifier::external_body]
fn text_of_bytes(b: &[u8]) -> (r: String)
    ensures
        valid_utf8(b@) ==> r@ == decode_utf8(b@),
        !valid_utf8(b@) ==> r@ == lossy_text(b@),
{
    String::from_utf8_lossy(b).into_owned()
}

// ---------------------------------------------------------------------------
// Lemmas
// ---------------------------------------------------------------------------

/// Joining one more label adds a dot and the label, unless it is the first.
pub proof fn lemma_join_push(ls: Seq<Seq<u8>>, l: Seq<u8>)
    ensures
        join_labels(ls.push(l)) == if ls.len() == 0 {
            l
        } else {
            join_labels(ls) + seq![DOT] + l
        },
    decreases ls.len(),
{
    if ls.len() == 0 {
    } else if ls.len() == 1 {
        assert(ls.push(l).drop_first() =~= seq![l]);
        assert(join_labels(seq![l]) == l);
    } else {
        assert(ls.push(l).drop_first() =~= ls.drop_first().push(l));
        lemma_join_push(ls.drop_first(), l);
        assert(join_labels(ls.push(l)) =~= join_labels(ls) + seq![DOT] + l);
    }
}

/// The first dot of `t` is at `k` when none comes before `k` and one is at `k`
/// (or `k` is the end).
pub proof fn lemma_first_dot(t: Seq<u8>, k: int)
    requires
        0 <= k <= t.len(),
        forall|j: int| 0 <= j < k ==> t[j] != DOT,
        k == t.len() || t[k] == DOT,
    ensures
        first_dot(t) == k,
    decreases k,
{
    if k > 0 {
        lemma_first_dot(t.drop_first(), k - 1);
    }
}

/// Where the first dot of `t` stands: inside `t`, and on a dot unless at the end.
pub proof fn lemma_first_dot_bound(t: Seq<u8>)
    ensures
        first_dot(t) <= t.len(),
        first_dot(t) < t.len() ==> t[first_dot(t) as int] == DOT,
    decreases t.len(),
{
    if t.len() > 0 && t[0] != DOT {
        lemma_first_dot_bound(t.drop_first());
    }
}

/// Joining the labels of a text gives the text back.
pub proof fn lemma_join_name_labels(t: Seq<u8>)
    ensures
        join_labels(name_labels(t)) == t,
{
    if t.len() == 0 {
        assert(join_labels(name_labels(t)) =~= t);
    } else {
        lemma_join_split_dots(t);
    }
}

/// Joining the pieces of `t` cut at its dots gives `t` back.
pub proof fn lemma_join_split_dots(t: Seq<u8>)
    ensures
        join_labels(split_dots(t)) == t,
    decreases t.len(),
{
    let k = first_dot(t);
    lemma_first_dot_bound(t);
    if k < t.len() {
        let rest = t.skip(k + 1 as int);
        lemma_join_split_dots(rest);
        let tail = split_dots(rest);
        assert(tail.len() >= 1);
        let ls = seq![t.take(k as int)] + tail;
        assert(ls.drop_first() =~= tail);
        assert(t.take(k as int) + seq![DOT] + rest =~= t);
    }
}

/// Labels that can all be encoded, laid out uncompressed at `pos`, read back
/// as themselves, and the name ends just past them.
pub proof fn lemma_name_at_wire(buf: Seq<u8>, pos: int, ls: Seq<Seq<u8>>, hops: nat)
    requires
        labels_fault(ls) is None,
        0 <= pos,
        pos + labels_wire(ls).len() <= buf.len(),
        buf.subrange(pos, pos + labels_wire(ls).len()) == labels_wire(ls),
    ensures
        name_at(buf, pos, hops) == Ok::<(Seq<Seq<u8>>, int), DnsError>(
            (ls, pos + labels_wire(ls).len()),
        ),
    decreases ls.len(),
{
    let w = labels_wire(ls);
    assert(buf[pos] == buf.subrange(pos, pos + w.len())[0]);
    if ls.len() == 0 {
        assert(buf[pos] == 0);
        assert(ls =~= Seq::<Seq<u8>>::empty());
    } else {
        let l = ls[0];
        let rest = ls.drop_first();
        let wr = labels_wire(rest);
        let p = pos + 1 + l.len();
        assert(label_fault(l) is None);
        assert(w == seq![l.len() as u8] + l + wr);
        assert(buf[pos] == l.len());
        assert(buf.subrange(pos + 1, p) =~= w.subrange(1, 1 + l.len() as int));
        assert(buf.subrange(pos + 1, p) =~= l);
        assert(buf.subrange(p, p + wr.len()) =~= w.subrange(1 + l.len() as int, w.len() as int));
        assert(buf.subrange(p, p + wr.len()) =~= wr);
        lemma_name_at_wire(buf, p, rest, hops);
        assert(seq![l] + rest =~= ls);
    }
}

/// The text of a name read back from the encoding of `s` is `s`.
pub proof fn lemma_text_round_trip(s: Seq<char>)
    ensures
        name_text(name_labels(encode_utf8(s))) == s,
{
    lemma_join_name_labels(encode_utf8(s));
    vstd::utf8::encode_utf8_valid_utf8(s);
    vstd::utf8::encode_utf8_decode_utf8(s);
}

/// A pointer that targets its own position is taken for a loop, however
/// many pointers were followed before it.
pub proof fn lemma_self_pointer(buf: Seq<u8>, pos: int, hops: nat)
    requires
        0 <= pos,
        pos + 1 < buf.len(),
        buf[pos] >= 0xc0,
        pointer_target(buf[pos], buf[pos + 1]) == pos,
    ensures
        name_at(buf, pos, hops) == Err::<(Seq<Seq<u8>>, int), DnsError>(DnsError::CompressionLoop),
    decreases MAX_POINTER_HOPS - hops,
{
    if hops < MAX_POINTER_HOPS {
        lemma_self_pointer(buf, pos, hops + 1);
    }
}

/// A label whose length byte announces more bytes than the buffer still
/// holds makes the name truncated.
pub proof fn lemma_truncated_label(buf: Seq<u8>, pos: int, hops: nat)
    requires
        0 <= pos < buf.len(),
        1 <= buf[pos] <= MAX_LABEL_LEN,
        pos + 1 + buf[pos] > buf.len(),
    ensures
        name_at(buf, pos, hops) == Err::<(Seq<Seq<u8>>, int), DnsError>(DnsError::TruncatedInput),
{
}

// ---------------------------------------------------------------------------
// Executable codec
// ---------------------------------------------------------------------------

/// Reads the name at `start`: the dot-joined text of its labels, and the
/// offset where what follows the name begins.
pub fn read_name(buf: &[u8], start: usize) -> (r: Result<(Vec<u8>, usize), DnsError>)
    ensures
        match name_at(buf@, start as int, 0) {
            Ok((ls, end)) => r matches Ok((t, e)) && t@ == join_labels(ls) && e == end,
            Err(err) => r matches Err(x) && x == err,
        },
{
    let mut text: Vec<u8> = Vec::new();
    let mut pos: usize = start;
    let mut hops: u64 = 0;
    let mut end: Option<usize> = None;
    let mut any_label: bool = false;
    let ghost mut acc: Seq<Seq<u8>> = Seq::empty();
    proof {
        match name_at(buf@, start as int, 0) {
            Ok((ls, e)) => {
                assert(acc + ls =~= ls);
            },
            Err(_) => {},
        }
    }
    loop
        invariant
            hops <= MAX_POINTER_HOPS,
            text@ == join_labels(acc),
            any_label == (acc.len() > 0),
            name_at(buf@, start as int, 0) == continue_read(
                acc,
                name_at(buf@, pos as int, hops as nat),
                end,
            ),
        decreases MAX_POINTER_HOPS - hops, buf.len() - pos,
    {
        if pos >= buf.len() {
            return Err(DnsError::TruncatedInput);
        }
        let l = buf[pos];
        if l == 0 {
            let e = match end {
                Some(x) => x,
                None => pos + 1,
            };
            proof {
                assert(acc + Seq::<Seq<u8>>::empty() =~= acc);
            }
            return Ok((text, e));
        } else if l >= 0xc0 {
            if pos + 1 >= buf.len() {
                return Err(DnsError::TruncatedInput);
            }
            if hops >= MAX_POINTER_HOPS {
                return Err(DnsError::CompressionLoop);
            }
            let target: usize = ((l - 0xc0) as usize) * 256 + buf[pos + 1] as usize;
            assert(target as int == pointer_target(l, buf@[pos + 1]));
            if end.is_none() {
                end = Some(pos + 2);
            }
            hops = hops + 1;
            pos = target;
        } else if l as usize > MAX_LABEL_LEN {
            return Err(DnsError::InvalidLabelLength);
        } else {
            let n = l as usize;
            if n > buf.len() - pos - 1 {
                return Err(DnsError::TruncatedInput);
            }
            let ghost old_text = text@;
            let ghost label = buf@.subrange(pos + 1, pos + 1 + n);
            if any_label {
                text.push(DOT);
            }
            let ghost with_dot = text@;
            let mut k: usize = pos + 1;
            while k < pos + 1 + n
                invariant
                    pos + 1 <= k <= pos + 1 + n <= buf.len(),
                    text@ == with_dot + buf@.subrange(pos + 1, k as int),
                decreases pos + 1 + n - k,
            {
                text.push(buf[k]);
                assert(buf@.subrange(pos + 1, k + 1) =~= buf@.subrange(pos + 1, k as int).push(
                    buf@[k as int],
                ));
                k = k + 1;
            }
            proof {
                lemma_join_push(acc, label);
                assert(text@ =~= join_labels(acc.push(label)));
                match name_at(buf@, pos + 1 + n, hops as nat) {
                    Ok((ls, e)) => {
                        assert(acc + (seq![label] + ls) =~= acc.push(label) + ls);
                    },
                    Err(_) => {},
                }
                acc = acc.push(label);
            }
            any_label = true;
            pos = pos + 1 + n;
        }
    }
}

/// Reads the name at `start_offset` as a string, with the offset where what
/// follows it begins (just past the two bytes of a first pointer, if any).
pub fn parse_label(bytes: &[u8], start_offset: usize) -> (r: Result<(String, usize), DnsError>)
    ensures
        match name_at(bytes@, start_offset as int, 0) {
            Ok((ls, end)) => r matches Ok((s, e)) && s@ == name_text(ls) && e == end,
            Err(err) => r matches Err(x) && x == err,
        },
{
    match read_name(bytes, start_offset) {
        Ok((text, end)) => Ok((text_of_bytes(text.as_slice()), end)),
        Err(e) => Err(e),
    }
}

/// The view of an encoding result: the bytes as a sequence.
pub open spec fn bytes_result(r: Result<Vec<u8>, DnsError>) -> Result<Seq<u8>, DnsError> {
    match r {
        Ok(v) => Ok(v@),
        Err(e) => Err(e),
    }
}

/// The labels of `t` from byte `start` on; none when `start` is past the end.
pub open spec fn labels_from(t: Seq<u8>, start: int) -> Seq<Seq<u8>> {
    split_dots(t.skip(start))
}

/// Encodes the name whose textual form is `t`, with no compression: each
/// dot-separated label behind its length byte, then a zero byte.
pub fn encode_name(t: &[u8]) -> (r: Result<Vec<u8>, DnsError>)
    ensures
        bytes_result(r) == name_wire(t@),
{
    let mut out: Vec<u8> = Vec::new();
    if t.len() == 0 {
        out.push(0);
        assert(out@ =~= labels_wire(Seq::empty()));
        return Ok(out);
    }
    assert(t@.skip(0) =~= t@);
    let mut start: usize = 0;
    let mut i: usize = 0;
    while i < t.len()
        invariant
            start <= i <= t.len(),
            forall|j: int| start <= j < i ==> t@[j] != DOT,
            labels_fault(name_labels(t@)) == labels_fault(labels_from(t@, start as int)),
            labels_wire(name_labels(t@)) == out@ + labels_wire(labels_from(t@, start as int)),
        decreases t.len() - i,
    {
        if t[i] == DOT {
            let ghost rest = t@.skip(start as int);
            let ghost label = t@.subrange(start as int, i as int);
            proof {
                lemma_first_dot(rest, i - start);
                assert(rest.take(i - start) =~= label);
                assert(rest.skip(i - start + 1) =~= t@.skip(i + 1));
                let tail = labels_from(t@, i + 1);
                assert((seq![label] + tail).drop_first() =~= tail);
            }
            let n = i - start;
            if n == 0 {
                return Err(DnsError::EmptyLabel);
            }
            if n > MAX_LABEL_LEN {
                return Err(DnsError::LabelTooLong);
            }
            let ghost old_out = out@;
            out.push(n as u8);
            let mut k: usize = start;
            while k < i
                invariant
                    start <= k <= i < t.len(),
                    n == i - start <= MAX_LABEL_LEN,
                    out@ == old_out + seq![n as u8] + t@.subrange(start as int, k as int),
                decreases i - k,
            {
                out.push(t[k]);
                assert(t@.subrange(start as int, k + 1) =~= t@.subrange(start as int, k as int).push(t@[k as int]));
                k = k + 1;
            }
            proof {
                let tail = labels_from(t@, i + 1);
                assert(old_out + labels_wire(seq![label] + tail) =~= out@ + labels_wire(tail));
            }
            start = i + 1;
        }
        i = i + 1;
    }
    let ghost label = t@.skip(start as int);
    proof {
        lemma_first_dot(label, t.len() - start);
        assert(seq![label].drop_first() =~= Seq::<Seq<u8>>::empty());
    }
    let n = t.len() - start;
    if n == 0 {
        return Err(DnsError::EmptyLabel);
    }
    if n > MAX_LABEL_LEN {
        return Err(DnsError::LabelTooLong);
    }
    let ghost old_out = out@;
    out.push(n as u8);
    let mut k: usize = start;
    while k < t.len()
        invariant
            start <= k <= t.len(),
            n == t.len() - start <= MAX_LABEL_LEN,
            out@ == old_out + seq![n as u8] + t@.subrange(start as int, k as int),
        decreases t.len() - k,
    {
        out.push(t[k]);
        assert(t@.subrange(start as int, k + 1) =~= t@.subrange(start as int, k as int).push(t@[k as int]));
        k = k + 1;
    }
    out.push(0);
    proof {
        assert(t@.subrange(start as int, t.len() as int) =~= label);
        assert(labels_from(t@, start as int) == seq![label]);
        assert(labels_fault(Seq::<Seq<u8>>::empty()) == None::<DnsError>);
        assert(labels_fault(seq![label]) == None::<DnsError>);
        assert(labels_wire(Seq::<Seq<u8>>::empty()) == seq![0u8]);
        assert(out@ =~= old_out + labels_wire(seq![label]));
    }
    if out.len() > MAX_NAME_LEN {
        return Err(DnsError::NameTooLong);
    }
    Ok(out)
}

/// The encoding of the name whose text is `s`: its UTF-8 bytes, cut at dots.
pub open spec fn text_wire(s: Seq<char>) -> Result<Seq<u8>, DnsError> {
    name_wire(encode_utf8(s))
}

/// Encodes the name whose text is `name`, with no compression.
pub fn encode_text(name: &String) -> (r: Result<Vec<u8>, DnsError>)
    ensures
        bytes_result(r) == text_wire(name@),
{
    encode_name(name.as_str().as_bytes())
}

} // verus!
