//! RESP codec: the wire grammar as spec functions over byte sequences, an
//! executable parser and serializer proved against it.

use vstd::prelude::*;

verus! {

broadcast use vstd::std_specs::vec::axiom_vec_index_decreases;

/// Carriage return, the first byte of the line terminator.
pub const CR: u8 = 13;

/// Line feed, the second byte of the line terminator.
pub const LF: u8 = 10;

/// `$`, the leading byte of a bulk string header.
pub const DOLLAR: u8 = 36;

/// `*`, the leading byte of an array header.
pub const STAR: u8 = 42;

/// `+`, the leading byte of a simple-string reply.
pub const PLUS: u8 = 43;

/// ASCII space, the separator used when joining command arguments.
pub const SP: u8 = 32;

/// Why a parse attempt failed.
#[derive(Clone, Copy, PartialEq, Eq, Structural, Debug)]
pub enum ProtocolError {
    /// The input does not begin with a recognized header, or a length is not
    /// a valid number: no amount of further input can repair it.
    InvalidHeader,
    /// The input ends before the frame it has begun: more bytes are needed.
    TruncatedFrame,
}

/// A protocol value: a length-prefixed bulk string, or an ordered array of
/// protocol values.
#[derive(Debug)]
pub enum RESP {
    BulkString(Vec<u8>),
    Array(Vec<RESP>),
}

/// The mathematical model of a protocol value.
pub enum RespModel {
    Bulk(Seq<u8>),
    Arr(Seq<RespModel>),
}

impl RESP {
    /// The model this value denotes.
    pub open spec fn deep_view(self) -> RespModel
        decreases self, 1nat,
    {
        match self {
            RESP::BulkString(bytes) => RespModel::Bulk(bytes@),
            RESP::Array(elems) => RespModel::Arr(RESP::deep_view_from(elems, 0)),
        }
    }

    /// The models of the elements of `elems` from position `i` on, in order.
    pub open spec fn deep_view_from(elems: Vec<RESP>, i: nat) -> Seq<RespModel>
        decreases elems, 0nat, elems@.len() - i,
    {
        if i >= elems@.len() {
            Seq::empty()
        } else {
            seq![elems@[i as int].deep_view()] + RESP::deep_view_from(elems, i + 1)
        }
    }
}

/// The models of the elements of `s` from position `i` on, in order.
pub open spec fn models_from(s: Seq<RESP>, i: nat) -> Seq<RespModel>
    decreases s, 0nat, s.len() - i,
{
    if i >= s.len() {
        Seq::empty()
    } else {
        seq![s[i as int].deep_view()] + models_from(s, i + 1)
    }
}

/// Whether `b` is an ASCII decimal digit.
pub open spec fn is_digit(b: u8) -> bool {
    48 <= b && b <= 57
}

/// Outcome of parsing a decimal length line: more bytes needed, malformed,
/// or a value together with the position just past its terminator.
pub enum NumOutcome {
    More,
    Bad,
    Done { val: usize, next: usize },
}

/// Outcome of parsing one bulk string frame.
pub enum BulkOutcome {
    More,
    Bad,
    Done { payload: Seq<u8>, next: usize },
}

/// Outcome of parsing a run of consecutive bulk string frames.
pub enum ElemsOutcome {
    More,
    Bad,
    Done { elems: Seq<Seq<u8>>, next: usize },
}

/// Outcome of parsing one whole frame.
pub enum FrameOutcome {
    More,
    Bad,
    Done { val: RespModel, next: usize },
}

/// Parse a decimal number starting at position `i`, having already
/// accumulated `acc` from `ndigits` digits, up to and including a CRLF
/// terminator. A number that does not fit in `usize` is malformed.
pub open spec fn spec_parse_num(s: Seq<u8>, i: nat, acc: nat, ndigits: nat) -> NumOutcome
    decreases s.len() - i,
{
    if i >= s.len() {
        NumOutcome::More
    } else if is_digit(s[i as int]) {
        spec_parse_num(s, i + 1, (acc * 10 + (s[i as int] - 48)) as nat, ndigits + 1)
    } else if s[i as int] == CR {
        if ndigits == 0 {
            NumOutcome::Bad
        } else if i + 1 >= s.len() {
            NumOutcome::More
        } else if s[(i + 1) as int] == LF {
            if acc <= usize::MAX {
                NumOutcome::Done { val: acc as usize, next: (i + 2) as usize }
            } else {
                NumOutcome::Bad
            }
        } else {
            NumOutcome::Bad
        }
    } else {
        NumOutcome::Bad
    }
}

/// Parse one bulk string frame (`$<len>` CRLF payload CRLF) at position `i`.
/// A declared length that does not match the available bytes means the frame
/// is still incomplete.
pub open spec fn spec_parse_bulk(s: Seq<u8>, i: nat) -> BulkOutcome {
    if i >= s.len() {
        BulkOutcome::More
    } else if s[i as int] != DOLLAR {
        BulkOutcome::Bad
    } else {
        match spec_parse_num(s, i + 1, 0, 0) {
            NumOutcome::More => BulkOutcome::More,
            NumOutcome::Bad => BulkOutcome::Bad,
            NumOutcome::Done { val, next } => {
                if next + val + 2 > s.len() {
                    BulkOutcome::More
                } else if s[(next + val) as int] == CR && s[(next + val + 1) as int] == LF {
                    BulkOutcome::Done {
                        payload: s.subrange(next as int, (next + val) as int),
                        next: (next + val + 2) as usize,
                    }
                } else {
                    BulkOutcome::More
                }
            },
        }
    }
}

/// Parse `count` consecutive bulk string frames starting at position `i`.
pub open spec fn spec_parse_elems(s: Seq<u8>, i: nat, count: nat) -> ElemsOutcome
    decreases count,
{
    if count == 0 {
        ElemsOutcome::Done { elems: Seq::empty(), next: i as usize }
    } else {
        match spec_parse_bulk(s, i) {
            BulkOutcome::More => ElemsOutcome::More,
            BulkOutcome::Bad => ElemsOutcome::Bad,
            BulkOutcome::Done { payload, next } => {
                match spec_parse_elems(s, next as nat, (count - 1) as nat) {
                    ElemsOutcome::More => ElemsOutcome::More,
                    ElemsOutcome::Bad => ElemsOutcome::Bad,
                    ElemsOutcome::Done { elems, next: end } => ElemsOutcome::Done {
                        elems: seq![payload] + elems,
                        next: end,
                    },
                }
            },
        }
    }
}

/// Parse an array frame (`*<count>` CRLF, then `count` bulk strings) at
/// position `i`.
pub open spec fn spec_parse_array(s: Seq<u8>, i: nat) -> FrameOutcome {
    if i >= s.len() {
        FrameOutcome::More
    } else if s[i as int] != STAR {
        FrameOutcome::Bad
    } else {
        match spec_parse_num(s, i + 1, 0, 0) {
            NumOutcome::More => FrameOutcome::More,
            NumOutcome::Bad => FrameOutcome::Bad,
            NumOutcome::Done { val, next } => {
                match spec_parse_elems(s, next as nat, val as nat) {
                    ElemsOutcome::More => FrameOutcome::More,
                    ElemsOutcome::Bad => FrameOutcome::Bad,
                    ElemsOutcome::Done { elems, next: end } => FrameOutcome::Done {
                        val: RespModel::Arr(elems.map_values(|p: Seq<u8>| RespModel::Bulk(p))),
                        next: end,
                    },
                }
            },
        }
    }
}

/// Parse one whole frame from the front of `s`: an array if it begins with
/// `*`, a standalone bulk string if it begins with `$`, malformed otherwise.
/// An empty buffer is an incomplete frame.
pub open spec fn spec_parse_frame(s: Seq<u8>) -> FrameOutcome {
    if s.len() == 0 {
        FrameOutcome::More
    } else if s[0] == STAR {
        spec_parse_array(s, 0)
    } else if s[0] == DOLLAR {
        match spec_parse_bulk(s, 0) {
            BulkOutcome::More => FrameOutcome::More,
            BulkOutcome::Bad => FrameOutcome::Bad,
            BulkOutcome::Done { payload, next } => FrameOutcome::Done {
                val: RespModel::Bulk(payload),
                next,
            },
        }
    } else {
        FrameOutcome::Bad
    }
}

/// The decimal digits of `n`, most significant first, without leading zeros
/// (`0` renders as the single digit `0`).
pub open spec fn spec_digits(n: nat) -> Seq<u8>
    decreases n,
{
    if n < 10 {
        seq![(48 + n) as u8]
    } else {
        spec_digits(n / 10) + seq![(48 + n % 10) as u8]
    }
}

/// The two-byte line terminator.
pub open spec fn crlf() -> Seq<u8> {
    seq![CR, LF]
}

/// The wire encoding of a bulk string with payload `p`:
/// `$<len>` CRLF `p` CRLF.
pub open spec fn spec_encode_bulk(p: Seq<u8>) -> Seq<u8> {
    seq![DOLLAR] + spec_digits(p.len()) + crlf() + p + crlf()
}

/// The concatenated encodings of the bulk strings `ps`.
pub open spec fn spec_encode_elems(ps: Seq<Seq<u8>>) -> Seq<u8>
    decreases ps.len(),
{
    if ps.len() == 0 {
        Seq::empty()
    } else {
        spec_encode_bulk(ps[0]) + spec_encode_elems(ps.drop_first())
    }
}

/// The wire encoding of an array of bulk strings with payloads `ps`:
/// `*<count>` CRLF, then each element's encoding.
pub open spec fn spec_encode_array(ps: Seq<Seq<u8>>) -> Seq<u8> {
    seq![STAR] + spec_digits(ps.len()) + crlf() + spec_encode_elems(ps)
}

/// The fixed simple-string reply `+PONG` CRLF.
pub open spec fn pong() -> Seq<u8> {
    seq![PLUS, 80u8, 79u8, 78u8, 71u8, CR, LF]
}

/// The bytes of the command name `ECHO`.
pub open spec fn echo_bytes() -> Seq<u8> {
    seq![69u8, 67u8, 72u8, 79u8]
}

/// A successfully parsed length line ends at or before the end of the input,
/// and past the position it started from.
pub proof fn lemma_parse_num_bounds(s: Seq<u8>, i: nat, acc: nat, ndigits: nat)
    requires
        i <= s.len(),
        s.len() <= usize::MAX,
    ensures
        spec_parse_num(s, i, acc, ndigits) matches NumOutcome::Done { next, .. } ==> i + 2
            <= next <= s.len(),
    decreases s.len() - i,
{
    if i < s.len() && is_digit(s[i as int]) {
        lemma_parse_num_bounds(s, i + 1, (acc * 10 + (s[i as int] - 48)) as nat, ndigits + 1);
    }
}

/// Parse a decimal length line at `start`. Relies on nothing outside this
/// crate; its contract is exactly the spec-level grammar.
fn parse_num_at(input: &[u8], start: usize) -> (r: Result<(usize, usize), ProtocolError>)
    requires
        start <= input@.len(),
    ensures
        (match spec_parse_num(input@, start as nat, 0, 0) {
            NumOutcome::More => r == Err::<(usize, usize), ProtocolError>(
                ProtocolError::TruncatedFrame,
            ),
            NumOutcome::Bad => r == Err::<(usize, usize), ProtocolError>(
                ProtocolError::InvalidHeader,
            ),
            NumOutcome::Done { val, next } => r == Ok::<(usize, usize), ProtocolError>(
                (val, next),
            ),
        }),
{
    let mut i: usize = start;
    let mut acc: usize = 0;
    let mut big: bool = false;
    let mut has_digits: bool = false;
    let ghost mut acc_g: nat = 0;
    let ghost mut nd: nat = 0;
    loop
        invariant
            start <= i <= input@.len(),
            spec_parse_num(input@, start as nat, 0, 0) == spec_parse_num(
                input@,
                i as nat,
                acc_g,
                nd,
            ),
            big <==> acc_g > usize::MAX,
            !big ==> acc as nat == acc_g,
            has_digits <==> nd > 0,
        decreases input@.len() - i,
    {
        if i >= input.len() {
            return Err(ProtocolError::TruncatedFrame);
        }
        let b: u8 = *vstd::slice::slice_index_get(input, i);
        if 48 <= b && b <= 57 {
            let d: usize = (b - 48) as usize;
            let ghost old_acc: nat = acc_g;
            proof {
                acc_g = (acc_g * 10 + d) as nat;
                nd = nd + 1;
            }
            if big {
                assert(acc_g > usize::MAX) by (nonlinear_arith)
                    requires
                        old_acc > usize::MAX,
                        acc_g == old_acc * 10 + d,
                ;
            } else if acc > (usize::MAX - d) / 10 {
                big = true;
                assert(acc_g > usize::MAX) by (nonlinear_arith)
                    requires
                        acc > (usize::MAX - d) / 10,
                        d <= 9,
                        acc_g == acc * 10 + d,
                ;
            } else {
                assert(acc * 10 + d <= usize::MAX) by (nonlinear_arith)
                    requires
                        acc <= (usize::MAX - d) / 10,
                        d <= 9,
                ;
                acc = acc * 10 + d;
            }
            has_digits = true;
            i = i + 1;
        } else if b == CR {
            if !has_digits {
                return Err(ProtocolError::InvalidHeader);
            }
            if i + 1 >= input.len() {
                return Err(ProtocolError::TruncatedFrame);
            }
            if *vstd::slice::slice_index_get(input, i + 1) == LF {
                if big {
                    return Err(ProtocolError::InvalidHeader);
                }
                return Ok((acc, i + 2));
            }
            return Err(ProtocolError::InvalidHeader);
        } else {
            return Err(ProtocolError::InvalidHeader);
        }
    }
}

/// Parse one bulk string frame at `start`, returning its payload and the
/// position just past the frame.
fn parse_bulk_at(input: &[u8], start: usize) -> (r: Result<(Vec<u8>, usize), ProtocolError>)
    requires
        start <= input@.len(),
    ensures
        (match spec_parse_bulk(input@, start as nat) {
            BulkOutcome::More => r == Err::<(Vec<u8>, usize), ProtocolError>(
                ProtocolError::TruncatedFrame,
            ),
            BulkOutcome::Bad => r == Err::<(Vec<u8>, usize), ProtocolError>(
                ProtocolError::InvalidHeader,
            ),
            BulkOutcome::Done { payload, next } => (r matches Ok((v, n)) && v@ == payload && n
                == next),
        }),
{
    if start >= input.len() {
        return Err(ProtocolError::TruncatedFrame);
    }
    if *vstd::slice::slice_index_get(input, start) != DOLLAR {
        return Err(ProtocolError::InvalidHeader);
    }
    let (len, next) = match parse_num_at(input, start + 1) {
        Ok(p) => p,
        Err(e) => {
            return Err(e);
        },
    };
    proof {
        lemma_parse_num_bounds(input@, (start + 1) as nat, 0, 0);
    }
    let remaining: usize = input.len() - next;
    if remaining < 2 || len > remaining - 2 {
        return Err(ProtocolError::TruncatedFrame);
    }
    let t1: u8 = *vstd::slice::slice_index_get(input, next + len);
    let t2: u8 = *vstd::slice::slice_index_get(input, next + len + 1);
    if t1 == CR && t2 == LF {
        let payload = vstd::slice::slice_to_vec(vstd::slice::slice_subrange(input, next, next + len));
        Ok((payload, next + len + 2))
    } else {
        Err(ProtocolError::TruncatedFrame)
    }
}

impl RESP {
    /// Parse a standalone bulk string frame from the front of `input`,
    /// returning the value and the count of bytes consumed.
    pub fn parse_bulk_strings(input: &[u8]) -> (r: Result<(RESP, usize), ProtocolError>)
        ensures
            (match spec_parse_bulk(input@, 0) {
                BulkOutcome::More => r == Err::<(RESP, usize), ProtocolError>(
                    ProtocolError::TruncatedFrame,
                ),
                BulkOutcome::Bad => r == Err::<(RESP, usize), ProtocolError>(
                    ProtocolError::InvalidHeader,
                ),
                BulkOutcome::Done { payload, next } => (r matches Ok((v, n)) && v.deep_view()
                    == RespModel::Bulk(payload) && n == next),
            }),
    {
        match parse_bulk_at(input, 0) {
            Ok((payload, next)) => Ok((RESP::BulkString(payload), next)),
            Err(e) => Err(e),
        }
    }
}

/// Prefix the payloads of a successful outcome with `pre`; pass the other
/// outcomes through.
pub open spec fn prepend_elems(pre: Seq<Seq<u8>>, o: ElemsOutcome) -> ElemsOutcome {
    match o {
        ElemsOutcome::Done { elems, next } => ElemsOutcome::Done { elems: pre + elems, next },
        _ => o,
    }
}

/// Prefixing twice is prefixing with the concatenation.
proof fn lemma_prepend_assoc(a: Seq<Seq<u8>>, b: Seq<Seq<u8>>, o: ElemsOutcome)
    ensures
        prepend_elems(a, prepend_elems(b, o)) == prepend_elems(a + b, o),
{
    match o {
        ElemsOutcome::Done { elems, next } => {
            assert(a + (b + elems) =~= (a + b) + elems);
        },
        _ => {},
    }
}

/// A successfully parsed bulk string ends past where it began and at or
/// before the end of the input.
pub proof fn lemma_parse_bulk_bounds(s: Seq<u8>, i: nat)
    requires
        i <= s.len(),
        s.len() <= usize::MAX,
    ensures
        spec_parse_bulk(s, i) matches BulkOutcome::Done { next, .. } ==> i < next <= s.len(),
{
    if i < s.len() && s[i as int] == DOLLAR {
        lemma_parse_num_bounds(s, i + 1, 0, 0);
    }
}

/// Appending one value to a sequence appends its model.
proof fn lemma_models_from_push(q: Seq<RESP>, x: RESP, i: nat)
    requires
        i <= q.len(),
    ensures
        models_from(q.push(x), i) == models_from(q, i) + seq![x.deep_view()],
    decreases q.len() - i,
{
    if i == q.len() {
        assert(models_from(q.push(x), i + 1) =~= Seq::empty());
        assert(models_from(q.push(x), i) =~= models_from(q, i) + seq![x.deep_view()]);
    } else {
        lemma_models_from_push(q, x, i + 1);
        assert(q.push(x)[i as int] == q[i as int]);
        assert(seq![q[i as int].deep_view()] + (models_from(q, i + 1) + seq![x.deep_view()])
            =~= (seq![q[i as int].deep_view()] + models_from(q, i + 1)) + seq![x.deep_view()]);
    }
}

/// The two spellings of "the models of the elements" agree.
pub proof fn lemma_deep_view_from_is_models(elems: Vec<RESP>, i: nat)
    ensures
        RESP::deep_view_from(elems, i) == models_from(elems@, i),
    decreases elems@.len() - i,
{
    if i < elems@.len() {
        lemma_deep_view_from_is_models(elems, i + 1);
    }
}

impl RESP {
    /// Parse an array frame from the front of `input`, returning the value
    /// and the count of bytes consumed.
    #[verifier::loop_isolation(false)]
    pub fn parse_array(input: &[u8]) -> (r: Result<(RESP, usize), ProtocolError>)
        ensures
            (match spec_parse_array(input@, 0) {
                FrameOutcome::More => r == Err::<(RESP, usize), ProtocolError>(
                    ProtocolError::TruncatedFrame,
                ),
                FrameOutcome::Bad => r == Err::<(RESP, usize), ProtocolError>(
                    ProtocolError::InvalidHeader,
                ),
                FrameOutcome::Done { val, next } => (r matches Ok((v, n)) && v.deep_view() == val
                    && n == next),
            }),
    {
        if input.len() == 0 {
            return Err(ProtocolError::TruncatedFrame);
        }
        if *vstd::slice::slice_index_get(input, 0) != STAR {
            return Err(ProtocolError::InvalidHeader);
        }
        let (count, start) = match parse_num_at(input, 1) {
            Ok(p) => p,
            Err(e) => {
                return Err(e);
            },
        };
        proof {
            lemma_parse_num_bounds(input@, 1, 0, 0);
        }
        let mut values: Vec<RESP> = Vec::new();
        let mut pos: usize = start;
        let mut j: usize = 0;
        let ghost mut payloads: Seq<Seq<u8>> = Seq::empty();
        proof {
            assert(payloads + spec_parse_elems(input@, start as nat, count as nat)->Done_elems
                =~= spec_parse_elems(input@, start as nat, count as nat)->Done_elems);
        }
        while j < count
            invariant
                j <= count,
                pos <= input@.len(),
                prepend_elems(
                    payloads,
                    spec_parse_elems(input@, pos as nat, (count - j) as nat),
                ) == spec_parse_elems(input@, start as nat, count as nat),
                models_from(values@, 0) == payloads.map_values(
                    |p: Seq<u8>| RespModel::Bulk(p),
                ),
            decreases count - j,
        {
            let (payload, next) = match parse_bulk_at(input, pos) {
                Ok(p) => p,
                Err(e) => {
                    return Err(e);
                },
            };
            proof {
                lemma_parse_bulk_bounds(input@, pos as nat);
            }
            let ghost old_payloads: Seq<Seq<u8>> = payloads;
            let ghost old_values: Seq<RESP> = values@;
            proof {
                payloads = payloads + seq![payload@];
                lemma_prepend_assoc(
                    old_payloads,
                    seq![payload@],
                    spec_parse_elems(input@, next as nat, (count - j - 1) as nat),
                );
            }
            values.push(RESP::BulkString(payload));
            proof {
                assert(values@ == old_values.push(RESP::BulkString(payload)));
                lemma_models_from_push(old_values, RESP::BulkString(payload), 0);
                assert(models_from(values@, 0) =~= payloads.map_values(
                    |p: Seq<u8>| RespModel::Bulk(p),
                ));
            }
            pos = next;
            j = j + 1;
        }
        proof {
            assert(payloads + Seq::<Seq<u8>>::empty() =~= payloads);
            lemma_deep_view_from_is_models(values, 0);
        }
        Ok((RESP::Array(values), pos))
    }

    /// Parse one whole frame from the front of `input`: an array if it
    /// begins with `*`, a standalone bulk string if it begins with `$`.
    pub fn parse_redis_protocol(input: &[u8]) -> (r: Result<(RESP, usize), ProtocolError>)
        ensures
            (match spec_parse_frame(input@) {
                FrameOutcome::More => r == Err::<(RESP, usize), ProtocolError>(
                    ProtocolError::TruncatedFrame,
                ),
                FrameOutcome::Bad => r == Err::<(RESP, usize), ProtocolError>(
                    ProtocolError::InvalidHeader,
                ),
                FrameOutcome::Done { val, next } => (r matches Ok((v, n)) && v.deep_view() == val
                    && n == next),
            }),
    {
        if input.len() == 0 {
            return Err(ProtocolError::TruncatedFrame);
        }
        let first: u8 = *vstd::slice::slice_index_get(input, 0);
        if first == STAR {
            RESP::parse_array(input)
        } else if first == DOLLAR {
            RESP::parse_bulk_strings(input)
        } else {
            Err(ProtocolError::InvalidHeader)
        }
    }
}

/// The argument pieces one value contributes to an ECHO reply: a bulk
/// string contributes its payload; an array contributes the payloads of its
/// bulk string elements, other elements silently dropped.
pub open spec fn head_parts(v: RespModel) -> Seq<Seq<u8>> {
    match v {
        RespModel::Bulk(s) => seq![s],
        RespModel::Arr(elems) => bulks_of(elems),
    }
}

/// The payloads of the bulk string elements of `elems`, in order.
pub open spec fn bulks_of(elems: Seq<RespModel>) -> Seq<Seq<u8>>
    decreases elems.len(),
{
    if elems.len() == 0 {
        Seq::empty()
    } else {
        (match elems[0] {
            RespModel::Bulk(s) => seq![s],
            RespModel::Arr(_) => Seq::empty(),
        }) + bulks_of(elems.drop_first())
    }
}

/// The argument pieces contributed by all of `vals`, in order.
pub open spec fn flatten_args(vals: Seq<RespModel>) -> Seq<Seq<u8>>
    decreases vals.len(),
{
    if vals.len() == 0 {
        Seq::empty()
    } else {
        head_parts(vals[0]) + flatten_args(vals.drop_first())
    }
}

/// The pieces joined with a single space between consecutive pieces.
pub open spec fn join_parts(parts: Seq<Seq<u8>>) -> Seq<u8>
    decreases parts.len(),
{
    if parts.len() == 0 {
        Seq::empty()
    } else if parts.len() == 1 {
        parts[0]
    } else {
        parts[0] + seq![SP] + join_parts(parts.drop_first())
    }
}

/// The views of a vector of byte vectors.
pub open spec fn views_of(ps: Seq<Vec<u8>>) -> Seq<Seq<u8>> {
    ps.map_values(|v: Vec<u8>| v@)
}

/// `flatten_args` of a nonempty sequence peels off the head.
proof fn lemma_flatten_cons(h: RespModel, t: Seq<RespModel>)
    ensures
        flatten_args(seq![h] + t) == head_parts(h) + flatten_args(t),
{
    let s = seq![h] + t;
    assert(s.drop_first() =~= t);
}

/// `bulks_of` of a nonempty sequence peels off the head.
proof fn lemma_bulks_cons(h: RespModel, t: Seq<RespModel>)
    ensures
        bulks_of(seq![h] + t) == (match h {
            RespModel::Bulk(s) => seq![s],
            RespModel::Arr(_) => Seq::<Seq<u8>>::empty(),
        }) + bulks_of(t),
{
    let s = seq![h] + t;
    assert(s.drop_first() =~= t);
}

/// Joining after appending one more piece appends a separator (when there
/// already was a piece) and the piece.
proof fn lemma_join_push(ps: Seq<Seq<u8>>, x: Seq<u8>)
    ensures
        join_parts(ps.push(x)) == if ps.len() == 0 {
            x
        } else {
            join_parts(ps) + seq![SP] + x
        },
    decreases ps.len(),
{
    if ps.len() == 0 {
        assert(ps.push(x)[0] == x);
    } else {
        lemma_join_push(ps.drop_first(), x);
        assert(ps.push(x).drop_first() =~= ps.drop_first().push(x));
        if ps.len() == 1 {
            assert(join_parts(ps) == ps[0]);
        }
    }
}

/// Copy a byte vector.
fn copy_bytes(src: &Vec<u8>) -> (r: Vec<u8>)
    ensures
        r@ == src@,
{
    vstd::slice::slice_to_vec(src.as_slice())
}

/// Append the bytes of `src` to `dst`.
pub(crate) fn append_slice(dst: &mut Vec<u8>, src: &[u8])
    ensures
        final(dst)@ == old(dst)@ + src@,
{
    let mut k: usize = 0;
    while k < src.len()
        invariant
            k <= src@.len(),
            dst@ == old(dst)@ + src@.subrange(0, k as int),
        decreases src@.len() - k,
    {
        dst.push(*vstd::slice::slice_index_get(src, k));
        proof {
            assert(old(dst)@ + src@.subrange(0, k as int) + seq![src@[k as int]] =~= old(dst)@
                + src@.subrange(0, k + 1));
        }
        k = k + 1;
    }
    proof {
        assert(src@.subrange(0, src@.len() as int) =~= src@);
    }
}

impl RESP {
    /// Reconstruct the ECHO argument string: skip the first element (the
    /// command name) and join the remaining bulk string payloads, including
    /// those one level inside a nested array, with single spaces.
    #[verifier::loop_isolation(false)]
    pub fn get_response_value(values: &Vec<RESP>) -> (r: Vec<u8>)
        ensures
            r@ == join_parts(flatten_args(models_from(values@, 1))),
    {
        let mut parts: Vec<Vec<u8>> = Vec::new();
        let mut idx: usize = 1;
        proof {
            assert(views_of(parts@) =~= Seq::<Seq<u8>>::empty());
            assert(Seq::<Seq<u8>>::empty() + flatten_args(models_from(values@, 1))
                =~= flatten_args(models_from(values@, 1)));
        }
        while idx < values.len()
            invariant
                1 <= idx,
                idx <= values@.len() || (idx == 1 && values@.len() == 0),
                flatten_args(models_from(values@, 1)) == views_of(parts@) + flatten_args(
                    models_from(values@, idx as nat),
                ),
            decreases values@.len() - idx,
        {
            let ghost pre: Seq<Seq<u8>> = views_of(parts@);
            proof {
                lemma_flatten_cons(
                    values@[idx as int].deep_view(),
                    models_from(values@, idx as nat + 1),
                );
            }
            match &values[idx] {
                RESP::BulkString(s) => {
                    let piece = copy_bytes(s);
                    parts.push(piece);
                    proof {
                        assert(views_of(parts@) =~= pre + seq![s@]);
                        assert(pre + (seq![s@] + flatten_args(models_from(values@, idx as nat + 1)))
                            =~= (pre + seq![s@]) + flatten_args(models_from(values@, idx as nat + 1)));
                    }
                },
                RESP::Array(arr) => {
                    proof {
                        lemma_deep_view_from_is_models(*arr, 0);
                    }
                    let mut k: usize = 0;
                    while k < arr.len()
                        invariant
                            k <= arr@.len(),
                            views_of(parts@) == pre + bulks_of(models_from(arr@, 0)).subrange(
                                0,
                                bulks_of(models_from(arr@, 0)).len() - bulks_of(
                                    models_from(arr@, k as nat),
                                ).len(),
                            ),
                            bulks_of(models_from(arr@, k as nat)).len() <= bulks_of(
                                models_from(arr@, 0),
                            ).len(),
                            bulks_of(models_from(arr@, 0)) == bulks_of(
                                models_from(arr@, 0),
                            ).subrange(
                                0,
                                bulks_of(models_from(arr@, 0)).len() - bulks_of(
                                    models_from(arr@, k as nat),
                                ).len(),
                            ) + bulks_of(models_from(arr@, k as nat)),
                        decreases arr@.len() - k,
                    {
                        proof {
                            lemma_bulks_cons(
                                arr@[k as int].deep_view(),
                                models_from(arr@, k as nat + 1),
                            );
                        }
                        let ghost done: Seq<Seq<u8>> = views_of(parts@);
                        match &arr[k] {
                            RESP::BulkString(s) => {
                                let piece = copy_bytes(s);
                                parts.push(piece);
                                proof {
                                    assert(views_of(parts@) =~= done + seq![s@]);
                                }
                            },
                            RESP::Array(_) => {},
                        }
                        proof {
                            let whole = bulks_of(models_from(arr@, 0));
                            let now = bulks_of(models_from(arr@, k as nat));
                            let later = bulks_of(models_from(arr@, k as nat + 1));
                            assert(whole =~= whole.subrange(0, whole.len() - now.len()) + now);
                            assert(views_of(parts@) =~= pre + whole.subrange(
                                0,
                                whole.len() - later.len(),
                            ));
                            assert(whole =~= whole.subrange(0, whole.len() - later.len()) + later);
                        }
                        k = k + 1;
                    }
                    proof {
                        let whole = bulks_of(models_from(arr@, 0));
                        assert(bulks_of(models_from(arr@, arr@.len())) =~= Seq::<Seq<u8>>::empty());
                        assert(views_of(parts@) =~= pre + whole);
                        assert(pre + (whole + flatten_args(models_from(values@, idx as nat + 1)))
                            =~= (pre + whole) + flatten_args(models_from(values@, idx as nat + 1)));
                    }
                },
            }
            idx = idx + 1;
        }
        proof {
            assert(flatten_args(models_from(values@, values@.len())) =~= Seq::<Seq<u8>>::empty());
            if values@.len() == 0 {
                assert(models_from(values@, 1) =~= Seq::<RespModel>::empty());
            }
            assert(views_of(parts@) + Seq::<Seq<u8>>::empty() =~= views_of(parts@));
        }
        let mut out: Vec<u8> = Vec::new();
        let mut k: usize = 0;
        while k < parts.len()
            invariant
                k <= parts@.len(),
                out@ == join_parts(views_of(parts@).subrange(0, k as int)),
            decreases parts@.len() - k,
        {
            proof {
                lemma_join_push(views_of(parts@).subrange(0, k as int), parts@[k as int]@);
                assert(views_of(parts@).subrange(0, k as int).push(parts@[k as int]@)
                    =~= views_of(parts@).subrange(0, k + 1));
            }
            if k > 0 {
                out.push(SP);
            }
            append_slice(&mut out, parts[k].as_slice());
            k = k + 1;
        }
        proof {
            assert(views_of(parts@).subrange(0, parts@.len() as int) =~= views_of(parts@));
        }
        out
    }
}

/// Render `n` in decimal, most significant digit first.
fn dec_bytes(n: usize) -> (r: Vec<u8>)
    ensures
        r@ == spec_digits(n as nat),
{
    let mut rev: Vec<u8> = Vec::new();
    if n == 0 {
        rev.push(48);
        proof {
            assert(rev@ =~= spec_digits(0));
        }
        return rev;
    }
    let mut m: usize = n;
    while m > 0
        invariant
            m > 0 ==> spec_digits(n as nat) == spec_digits(m as nat) + rev@.reverse(),
            m == 0 ==> spec_digits(n as nat) == rev@.reverse(),
        decreases m,
    {
        let d: u8 = 48 + (m % 10) as u8;
        let ghost old_rev: Seq<u8> = rev@;
        rev.push(d);
        proof {
            assert(rev@.reverse() =~= seq![d] + old_rev.reverse());
            if m >= 10 {
                assert(spec_digits(m as nat) == spec_digits((m as nat) / 10) + seq![d]);
                assert(spec_digits((m as nat) / 10) + (seq![d] + old_rev.reverse())
                    =~= (spec_digits((m as nat) / 10) + seq![d]) + old_rev.reverse());
            } else {
                assert(spec_digits(m as nat) == seq![d]);
            }
            assert((m as nat) / 10 == (m / 10) as nat);
        }
        m = m / 10;
    }
    let mut out: Vec<u8> = Vec::new();
    let mut k: usize = 0;
    while k < rev.len()
        invariant
            k <= rev@.len(),
            spec_digits(n as nat) == rev@.reverse(),
            out@ == rev@.reverse().subrange(0, k as int),
        decreases rev@.len() - k,
    {
        out.push(rev[rev.len() - 1 - k]);
        proof {
            assert(out@ =~= rev@.reverse().subrange(0, k + 1));
        }
        k = k + 1;
    }
    proof {
        assert(rev@.reverse().subrange(0, rev@.len() as int) =~= rev@.reverse());
    }
    out
}

/// Serialize a bulk string reply: `$<len>` CRLF `content` CRLF.
pub fn serialize_bulk(content: &[u8]) -> (r: Vec<u8>)
    ensures
        r@ == spec_encode_bulk(content@),
{
    let mut out: Vec<u8> = Vec::new();
    out.push(DOLLAR);
    let ghost after_dollar: Seq<u8> = out@;
    let digits = dec_bytes(content.len());
    append_slice(&mut out, digits.as_slice());
    out.push(CR);
    out.push(LF);
    append_slice(&mut out, content);
    out.push(CR);
    out.push(LF);
    proof {
        assert(out@ =~= spec_encode_bulk(content@));
    }
    out
}

/// The fixed reply to every command other than ECHO.
pub fn pong_reply() -> (r: Vec<u8>)
    ensures
        r@ == pong(),
{
    let mut out: Vec<u8> = Vec::new();
    out.push(PLUS);
    out.push(80);
    out.push(79);
    out.push(78);
    out.push(71);
    out.push(CR);
    out.push(LF);
    proof {
        assert(out@ =~= pong());
    }
    out
}

/// The payload of the first bulk string element at or after position `i`,
/// if any.
pub open spec fn first_bulk_from(elems: Seq<RespModel>, i: nat) -> Option<Seq<u8>>
    decreases elems.len() - i,
{
    if i >= elems.len() {
        None
    } else {
        match elems[i as int] {
            RespModel::Bulk(s) => Some(s),
            RespModel::Arr(_) => first_bulk_from(elems, i + 1),
        }
    }
}

/// `models_from` keeps the element count.
pub proof fn lemma_models_from_len(q: Seq<RESP>, i: nat)
    ensures
        models_from(q, i).len() == if i <= q.len() {
            q.len() - i
        } else {
            0
        },
    decreases q.len() - i,
{
    if i < q.len() {
        lemma_models_from_len(q, i + 1);
    }
}

/// `models_from` keeps each element's model at its place.
pub proof fn lemma_models_from_at(q: Seq<RESP>, i: nat, j: nat)
    requires
        i <= j < q.len(),
    ensures
        models_from(q, i).len() == q.len() - i,
        models_from(q, i)[j - i] == q[j as int].deep_view(),
    decreases j - i,
{
    lemma_models_from_len(q, i);
    if i < j {
        lemma_models_from_at(q, i + 1, j);
        lemma_models_from_len(q, i + 1);
    }
}

/// A successfully parsed run of bulk strings ends at or before the end of
/// the input, and no earlier than it began.
pub proof fn lemma_parse_elems_bounds(s: Seq<u8>, i: nat, count: nat)
    requires
        i <= s.len(),
        s.len() <= usize::MAX,
    ensures
        spec_parse_elems(s, i, count) matches ElemsOutcome::Done { next, .. } ==> i <= next
            <= s.len(),
    decreases count,
{
    if count > 0 {
        lemma_parse_bulk_bounds(s, i);
        match spec_parse_bulk(s, i) {
            BulkOutcome::Done { payload, next } => {
                lemma_parse_elems_bounds(s, next as nat, (count - 1) as nat);
            },
            _ => {},
        }
    }
}

/// A successfully parsed frame consumes at least one byte and at most the
/// whole input.
pub proof fn lemma_parse_frame_bounds(s: Seq<u8>)
    requires
        s.len() <= usize::MAX,
    ensures
        spec_parse_frame(s) matches FrameOutcome::Done { next, .. } ==> 0 < next <= s.len(),
{
    if s.len() > 0 {
        if s[0] == STAR {
            lemma_parse_num_bounds(s, 1, 0, 0);
            match spec_parse_num(s, 1, 0, 0) {
                NumOutcome::Done { val, next } => {
                    lemma_parse_elems_bounds(s, next as nat, val as nat);
                },
                _ => {},
            }
        } else if s[0] == DOLLAR {
            lemma_parse_bulk_bounds(s, 0);
        }
    }
}

/// The number read from the digits `ds`, most significant first, on top of
/// an already-accumulated `acc`.
pub open spec fn digits_val(ds: Seq<u8>, acc: nat) -> nat
    decreases ds.len(),
{
    if ds.len() == 0 {
        acc
    } else {
        digits_val(ds.drop_first(), (acc * 10 + (ds[0] - 48)) as nat)
    }
}

/// Rendering a number yields at least one byte, all digits.
pub proof fn lemma_digits_are_digits(n: nat)
    ensures
        spec_digits(n).len() >= 1,
        forall|k: int| 0 <= k < spec_digits(n).len() ==> is_digit(#[trigger] spec_digits(n)[k]),
    decreases n,
{
    if n >= 10 {
        lemma_digits_are_digits(n / 10);
    }
}

/// Reading one more digit multiplies the accumulated value by ten.
proof fn lemma_digits_val_append(ds: Seq<u8>, d: u8, acc: nat)
    requires
        is_digit(d),
    ensures
        digits_val(ds.push(d), acc) == digits_val(ds, acc) * 10 + (d - 48),
    decreases ds.len(),
{
    if ds.len() == 0 {
        assert(ds.push(d)[0] == d);
        assert(ds.push(d).drop_first() =~= Seq::<u8>::empty());
        assert(digits_val(Seq::<u8>::empty(), (acc * 10 + (d - 48)) as nat) == (acc * 10 + (d
            - 48)) as nat);
    } else {
        assert(ds.push(d)[0] == ds[0]);
        assert(ds.push(d).drop_first() =~= ds.drop_first().push(d));
        lemma_digits_val_append(ds.drop_first(), d, (acc * 10 + (ds[0] - 48)) as nat);
    }
}

/// Reading back the rendered digits of `n` yields `n`.
pub proof fn lemma_digits_val_of_digits(n: nat)
    ensures
        digits_val(spec_digits(n), 0) == n,
    decreases n,
{
    if n < 10 {
        assert(spec_digits(n).drop_first() =~= Seq::<u8>::empty());
        assert(spec_digits(n)[0] == (48 + n) as u8);
        assert(digits_val(Seq::<u8>::empty(), n) == n);
    } else {
        lemma_digits_val_of_digits(n / 10);
        assert(spec_digits(n) =~= spec_digits(n / 10).push((48 + n % 10) as u8));
        lemma_digits_val_append(spec_digits(n / 10), (48 + n % 10) as u8, 0);
    }
}

/// Parsing a region known to hold digits and then CRLF accumulates exactly
/// the digits' value.
proof fn lemma_parse_num_block(s: Seq<u8>, i: nat, block: Seq<u8>, acc: nat, nd: nat)
    requires
        forall|k: int| 0 <= k < block.len() ==> is_digit(#[trigger] block[k]),
        forall|k: int| 0 <= k < block.len() ==> s[i + k] == block[k],
        i + block.len() + 1 < s.len(),
        s[(i + block.len()) as int] == CR,
        s[(i + block.len() + 1) as int] == LF,
        nd + block.len() > 0,
    ensures
        spec_parse_num(s, i, acc, nd) == (if digits_val(block, acc) <= usize::MAX {
            NumOutcome::Done {
                val: digits_val(block, acc) as usize,
                next: (i + block.len() + 2) as usize,
            }
        } else {
            NumOutcome::Bad
        }),
    decreases block.len(),
{
    if block.len() == 0 {
        assert(s[i as int] == CR);
        assert(!is_digit(CR));
    } else {
        assert(s[i as int] == block[0]);
        assert(is_digit(block[0]));
        assert(forall|k: int|
            0 <= k < block.drop_first().len() ==> s[i + 1 + k] == #[trigger] block.drop_first()[k]);
        lemma_parse_num_block(
            s,
            i + 1,
            block.drop_first(),
            (acc * 10 + (block[0] - 48)) as nat,
            nd + 1,
        );
    }
}

/// Parsing at a position known to hold the encoding of a bulk string
/// yields exactly its payload and consumes exactly the encoding.
pub proof fn lemma_parse_bulk_encode(s: Seq<u8>, i: nat, p: Seq<u8>)
    requires
        p.len() <= usize::MAX,
        s.len() <= usize::MAX,
        i + spec_encode_bulk(p).len() <= s.len(),
        forall|k: int|
            0 <= k < spec_encode_bulk(p).len() ==> s[i + k] == #[trigger] spec_encode_bulk(p)[k],
    ensures
        spec_parse_bulk(s, i) == (BulkOutcome::Done {
            payload: p,
            next: (i + spec_encode_bulk(p).len()) as usize,
        }),
{
    let enc = spec_encode_bulk(p);
    let ds = spec_digits(p.len());
    let m = ds.len();
    lemma_digits_are_digits(p.len());
    lemma_digits_val_of_digits(p.len());
    assert(enc.len() == 1 + m + 2 + p.len() + 2);
    assert(enc[0] == DOLLAR);
    assert(forall|k: int| 0 <= k < m ==> enc[1 + k] == #[trigger] ds[k]);
    assert(enc[(1 + m) as int] == CR);
    assert(enc[(2 + m) as int] == LF);
    assert(forall|k: int| 0 <= k < p.len() ==> enc[3 + m + k] == #[trigger] p[k]);
    assert(enc[(3 + m + p.len()) as int] == CR);
    assert(enc[(4 + m + p.len()) as int] == LF);
    assert(s[i as int] == DOLLAR);
    assert(forall|k: int| 0 <= k < m ==> s[i + 1 + k] == #[trigger] ds[k]);
    assert(s[(i + 1 + m) as int] == CR);
    assert(s[(i + 1 + m + 1) as int] == LF);
    lemma_parse_num_block(s, i + 1, ds, 0, 0);
    assert(spec_parse_num(s, i + 1, 0, 0) == NumOutcome::Done {
        val: p.len() as usize,
        next: (i + m + 3) as usize,
    });
    let next = i + m + 3;
    assert(next + p.len() + 2 <= s.len());
    assert(forall|k: int| 0 <= k < p.len() ==> s[next + k] == #[trigger] p[k]);
    assert(s[(next + p.len()) as int] == CR);
    assert(s[(next + p.len() + 1) as int] == LF);
    assert(s.subrange(next as int, (next + p.len()) as int) =~= p);
}

/// Parsing at a position known to hold the encodings of `count` bulk
/// strings yields exactly their payloads.
pub proof fn lemma_parse_elems_encode(s: Seq<u8>, i: nat, ps: Seq<Seq<u8>>)
    requires
        s.len() <= usize::MAX,
        forall|j: int| 0 <= j < ps.len() ==> (#[trigger] ps[j]).len() <= usize::MAX,
        i + spec_encode_elems(ps).len() <= s.len(),
        forall|k: int|
            0 <= k < spec_encode_elems(ps).len() ==> s[i + k] == #[trigger] spec_encode_elems(
                ps,
            )[k],
    ensures
        spec_parse_elems(s, i, ps.len()) == (ElemsOutcome::Done {
            elems: ps,
            next: (i + spec_encode_elems(ps).len()) as usize,
        }),
    decreases ps.len(),
{
    if ps.len() == 0 {
        assert(spec_parse_elems(s, i, 0) == ElemsOutcome::Done {
            elems: Seq::<Seq<u8>>::empty(),
            next: i as usize,
        });
        assert(Seq::<Seq<u8>>::empty() =~= ps);
    } else {
        let enc = spec_encode_elems(ps);
        let e0 = spec_encode_bulk(ps[0]);
        let rest = spec_encode_elems(ps.drop_first());
        assert(enc == e0 + rest);
        assert(forall|k: int| 0 <= k < e0.len() ==> enc[k] == #[trigger] e0[k]);
        assert(forall|k: int| 0 <= k < e0.len() ==> s[i + k] == #[trigger] e0[k]);
        lemma_parse_bulk_encode(s, i, ps[0]);
        assert(forall|k: int| 0 <= k < rest.len() ==> enc[e0.len() + k] == #[trigger] rest[k]);
        assert(forall|k: int| 0 <= k < rest.len() ==> s[i + e0.len() + k] == #[trigger] rest[k]);
        assert(forall|j: int|
            0 <= j < ps.drop_first().len() ==> (#[trigger] ps.drop_first()[j]).len()
                <= usize::MAX);
        lemma_parse_elems_encode(s, i + e0.len(), ps.drop_first());
        assert(seq![ps[0]] + ps.drop_first() =~= ps);
    }
}

/// Parsing a buffer that begins with the encoding of an array of bulk
/// strings yields exactly those payloads and consumes exactly the encoding;
/// any trailing bytes are left alone.
pub proof fn lemma_parse_array_encode(s: Seq<u8>, ps: Seq<Seq<u8>>)
    requires
        s.len() <= usize::MAX,
        ps.len() <= usize::MAX,
        forall|j: int| 0 <= j < ps.len() ==> (#[trigger] ps[j]).len() <= usize::MAX,
        spec_encode_array(ps).len() <= s.len(),
        forall|k: int|
            0 <= k < spec_encode_array(ps).len() ==> s[k] == #[trigger] spec_encode_array(ps)[k],
    ensures
        spec_parse_frame(s) == (FrameOutcome::Done {
            val: RespModel::Arr(ps.map_values(|p: Seq<u8>| RespModel::Bulk(p))),
            next: spec_encode_array(ps).len() as usize,
        }),
{
    let enc = spec_encode_array(ps);
    let ds = spec_digits(ps.len());
    let m = ds.len();
    let body = spec_encode_elems(ps);
    lemma_digits_are_digits(ps.len());
    lemma_digits_val_of_digits(ps.len());
    assert(enc.len() == 1 + m + 2 + body.len());
    assert(enc[0] == STAR);
    assert(forall|k: int| 0 <= k < m ==> enc[1 + k] == #[trigger] ds[k]);
    assert(enc[(1 + m) as int] == CR);
    assert(enc[(2 + m) as int] == LF);
    assert(forall|k: int| 0 <= k < body.len() ==> enc[3 + m + k] == #[trigger] body[k]);
    assert(s[0] == STAR);
    assert(forall|k: int| 0 <= k < m ==> s[1 + k] == #[trigger] ds[k]);
    assert(s[(1 + m) as int] == CR);
    assert(s[(1 + m + 1) as int] == LF);
    lemma_parse_num_block(s, 1, ds, 0, 0);
    assert(spec_parse_num(s, 1, 0, 0) == NumOutcome::Done {
        val: ps.len() as usize,
        next: (m + 3) as usize,
    });
    assert(forall|k: int| 0 <= k < body.len() ==> s[m + 3 + k] == #[trigger] body[k]);
    lemma_parse_elems_encode(s, m + 3, ps);
    assert(spec_parse_elems(s, m + 3, ps.len()) == ElemsOutcome::Done {
        elems: ps,
        next: (m + 3 + body.len()) as usize,
    });
}

/// Every element of an all-bulk sequence contributes exactly its payload
/// to the flattened argument list.
pub proof fn lemma_flatten_bulks(args: Seq<Seq<u8>>)
    ensures
        flatten_args(args.map_values(|p: Seq<u8>| RespModel::Bulk(p))) == args,
    decreases args.len(),
{
    let m = args.map_values(|p: Seq<u8>| RespModel::Bulk(p));
    if args.len() == 0 {
        assert(flatten_args(m) =~= args);
    } else {
        assert(m[0] == RespModel::Bulk(args[0]));
        assert(m.drop_first() =~= args.drop_first().map_values(|p: Seq<u8>| RespModel::Bulk(p)));
        lemma_flatten_bulks(args.drop_first());
        assert(head_parts(m[0]) == seq![args[0]]);
        assert(seq![args[0]] + args.drop_first() =~= args);
    }
}

/// Truncating the input after a successfully parsed length line does not
/// disturb it; truncating it anywhere inside makes it incomplete.
proof fn lemma_parse_num_take(s: Seq<u8>, i: nat, acc: nat, ndigits: nat, k: nat)
    requires
        i <= s.len(),
        s.len() <= usize::MAX,
        k <= s.len(),
    ensures
        spec_parse_num(s, i, acc, ndigits) matches NumOutcome::Done { val, next } ==> (if k < next {
            spec_parse_num(s.take(k as int), i, acc, ndigits) == NumOutcome::More
        } else {
            spec_parse_num(s.take(k as int), i, acc, ndigits) == (NumOutcome::Done { val, next })
        }),
    decreases s.len() - i,
{
    lemma_parse_num_bounds(s, i, acc, ndigits);
    if spec_parse_num(s, i, acc, ndigits) is Done {
        let t = s.take(k as int);
        if is_digit(s[i as int]) {
            lemma_parse_num_take(s, i + 1, (acc * 10 + (s[i as int] - 48)) as nat, ndigits + 1, k);
            if i < k {
                assert(t[i as int] == s[i as int]);
            }
        } else {
            if i < k {
                assert(t[i as int] == s[i as int]);
                if i + 1 < k {
                    assert(t[(i + 1) as int] == s[(i + 1) as int]);
                }
            }
        }
    }
}

/// The same, one level up: a successfully parsed bulk string survives
/// truncation past its end and turns incomplete under truncation inside.
proof fn lemma_parse_bulk_take(s: Seq<u8>, i: nat, k: nat)
    requires
        i <= s.len(),
        s.len() <= usize::MAX,
        k <= s.len(),
    ensures
        spec_parse_bulk(s, i) matches BulkOutcome::Done { payload, next } ==> (if k < next {
            spec_parse_bulk(s.take(k as int), i) == BulkOutcome::More
        } else {
            spec_parse_bulk(s.take(k as int), i) == (BulkOutcome::Done { payload, next })
        }),
{
    if spec_parse_bulk(s, i) is Done {
        let t = s.take(k as int);
        lemma_parse_num_bounds(s, i + 1, 0, 0);
        lemma_parse_num_take(s, i + 1, 0, 0, k);
        if i < k {
            assert(t[i as int] == s[i as int]);
            match spec_parse_num(s, i + 1, 0, 0) {
                NumOutcome::Done { val, next } => {
                    if k >= next + val + 2 {
                        assert(t[(next + val) as int] == s[(next + val) as int]);
                        assert(t[(next + val + 1) as int] == s[(next + val + 1) as int]);
                        assert(t.subrange(next as int, (next + val) as int) =~= s.subrange(
                            next as int,
                            (next + val) as int,
                        ));
                    }
                },
                _ => {},
            }
        }
    }
}

/// The same for a run of bulk strings, truncating no earlier than where
/// the run begins.
proof fn lemma_parse_elems_take(s: Seq<u8>, i: nat, count: nat, k: nat)
    requires
        i <= k <= s.len(),
        s.len() <= usize::MAX,
    ensures
        spec_parse_elems(s, i, count) matches ElemsOutcome::Done { elems, next } ==> (if k < next {
            spec_parse_elems(s.take(k as int), i, count) == ElemsOutcome::More
        } else {
            spec_parse_elems(s.take(k as int), i, count) == (ElemsOutcome::Done { elems, next })
        }),
    decreases count,
{
    if count > 0 && spec_parse_elems(s, i, count) is Done {
        lemma_parse_bulk_bounds(s, i);
        lemma_parse_bulk_take(s, i, k);
        match spec_parse_bulk(s, i) {
            BulkOutcome::Done { payload, next } => {
                lemma_parse_elems_bounds(s, next as nat, (count - 1) as nat);
                if k >= next {
                    lemma_parse_elems_take(s, next as nat, (count - 1) as nat, k);
                }
            },
            _ => {},
        }
    }
}

/// Truncating a buffer strictly inside its first frame leaves an
/// incomplete frame; truncating at or past the frame's end leaves the very
/// same parse.
pub proof fn lemma_parse_frame_take(s: Seq<u8>, k: nat)
    requires
        s.len() <= usize::MAX,
        k <= s.len(),
    ensures
        spec_parse_frame(s) matches FrameOutcome::Done { val, next } ==> (if k < next {
            spec_parse_frame(s.take(k as int)) == FrameOutcome::More
        } else {
            spec_parse_frame(s.take(k as int)) == (FrameOutcome::Done { val, next })
        }),
{
    if spec_parse_frame(s) is Done {
        let t = s.take(k as int);
        lemma_parse_frame_bounds(s);
        if k > 0 {
            assert(t[0] == s[0]);
        }
        if s[0] == STAR {
            lemma_parse_num_bounds(s, 1, 0, 0);
            lemma_parse_num_take(s, 1, 0, 0, k);
            match spec_parse_num(s, 1, 0, 0) {
                NumOutcome::Done { val, next } => {
                    lemma_parse_elems_bounds(s, next as nat, val as nat);
                    if k >= next {
                        lemma_parse_elems_take(s, next as nat, val as nat, k);
                    }
                },
                _ => {},
            }
        } else if s[0] == DOLLAR {
            lemma_parse_bulk_take(s, 0, k);
        }
    }
}

} // verus!
