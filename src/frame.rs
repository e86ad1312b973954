//! Framing of client requests: a RESP array of bulk strings.
//!
//! A request reads `*<count>\r\n` followed by `count` bulk strings, each
//! `$<length>\r\n<length bytes>\r\n`. Bytes may arrive in any number of reads,
//! so the parser tells a complete request from a prefix that needs more bytes
//! and from bytes that can never become a request.
use vstd::prelude::*;
use vstd::seq_lib::lemma_flatten_concat;

verus! {

/// Largest array count or bulk length that a request may announce.
pub const MAX_DECLARED: u64 = 536870912;

pub const ARRAY_MARK: u8 = 42;

pub const BULK_MARK: u8 = 36;

pub const CR: u8 = 13;

pub const LF: u8 = 10;

/// Outcome of reading a decimal number terminated by CRLF.
pub enum Scan {
    Incomplete,
    Invalid,
    /// The value, and the index just past the CRLF.
    Number(nat, int),
}

/// Outcome of framing one request at the start of a buffer.
pub enum Frame {
    /// The bytes so far may still become a request.
    Incomplete,
    /// No continuation of the bytes is a request.
    Invalid,
    /// The request's arguments, and how many bytes it took.
    Complete(Seq<Seq<u8>>, int),
}

pub open spec fn is_digit(c: u8) -> bool {
    48 <= c <= 57
}

/// Reads decimal digits of `b` from index `i` up to a CRLF, where the digits
/// before `i` are worth `acc` and `seen` says whether there was one.
pub open spec fn scan_number(b: Seq<u8>, i: int, acc: nat, seen: bool) -> Scan
    decreases b.len() - i,
{
    if i >= b.len() {
        Scan::Incomplete
    } else if is_digit(b[i]) {
        let v = acc * 10 + (b[i] as int - 48) as nat;
        if v > MAX_DECLARED {
            Scan::Invalid
        } else {
            scan_number(b, i + 1, v, true)
        }
    } else if b[i] == CR && seen {
        if i + 1 >= b.len() {
            Scan::Incomplete
        } else if b[i + 1] == LF {
            Scan::Number(acc, i + 2)
        } else {
            Scan::Invalid
        }
    } else {
        Scan::Invalid
    }
}

/// Reads `left` more bulk strings from index `i`, after the arguments `args`.
pub open spec fn scan_args(b: Seq<u8>, i: int, left: nat, args: Seq<Seq<u8>>) -> Frame
    decreases left,
{
    if left == 0 {
        Frame::Complete(args, i)
    } else if i >= b.len() {
        Frame::Incomplete
    } else if b[i] != BULK_MARK {
        Frame::Invalid
    } else {
        match scan_number(b, i + 1, 0, false) {
            Scan::Incomplete => Frame::Incomplete,
            Scan::Invalid => Frame::Invalid,
            Scan::Number(n, j) => {
                if j + n + 2 > b.len() {
                    Frame::Incomplete
                } else if b[j + n] != CR || b[j + n + 1] != LF {
                    Frame::Invalid
                } else {
                    scan_args(b, j + n + 2, (left - 1) as nat, args.push(b.subrange(j, j + n)))
                }
            },
        }
    }
}

/// What the bytes at the start of `b` amount to. A request holds at least one
/// argument, its command name.
pub open spec fn parse_request(b: Seq<u8>) -> Frame {
    if b.len() == 0 {
        Frame::Incomplete
    } else if b[0] != ARRAY_MARK {
        Frame::Invalid
    } else {
        match scan_number(b, 1, 0, false) {
            Scan::Incomplete => Frame::Incomplete,
            Scan::Invalid => Frame::Invalid,
            Scan::Number(n, j) => if n == 0 {
                Frame::Invalid
            } else {
                scan_args(b, j, n, seq![])
            },
        }
    }
}

pub open spec fn args_view(v: Vec<Vec<u8>>) -> Seq<Seq<u8>> {
    v@.map_values(|a: Vec<u8>| a@)
}

/// Executable outcome of [`parse_command`].
#[derive(Debug, PartialEq, Eq)]
pub enum ParseResult {
    Incomplete,
    Invalid,
    Complete(Vec<Vec<u8>>, usize),
}

impl View for ParseResult {
    type V = Frame;

    open spec fn view(&self) -> Frame {
        match self {
            ParseResult::Incomplete => Frame::Incomplete,
            ParseResult::Invalid => Frame::Invalid,
            ParseResult::Complete(v, n) => Frame::Complete(args_view(*v), *n as int),
        }
    }
}

enum Scanned {
    Incomplete,
    Invalid,
    Number(u64, usize),
}

spec fn scanned_view(s: Scanned) -> Scan {
    match s {
        Scanned::Incomplete => Scan::Incomplete,
        Scanned::Invalid => Scan::Invalid,
        Scanned::Number(n, j) => Scan::Number(n as nat, j as int),
    }
}

proof fn lemma_scan_number_bounds(b: Seq<u8>, i: int, acc: nat, seen: bool)
    requires
        acc <= MAX_DECLARED,
    ensures
        match scan_number(b, i, acc, seen) {
            Scan::Number(n, j) => i < j <= b.len() && n <= MAX_DECLARED,
            _ => true,
        },
    decreases b.len() - i,
{
    if i < b.len() && is_digit(b[i]) {
        let v = acc * 10 + (b[i] as int - 48) as nat;
        if v <= MAX_DECLARED {
            lemma_scan_number_bounds(b, i + 1, v, true);
        }
    }
}

proof fn lemma_scan_number_extend(b: Seq<u8>, x: Seq<u8>, i: int, acc: nat, seen: bool)
    requires
        0 <= i,
        !(scan_number(b, i, acc, seen) is Incomplete),
    ensures
        scan_number(b + x, i, acc, seen) == scan_number(b, i, acc, seen),
    decreases b.len() - i,
{
    let bx = b + x;
    assert(bx[i] == b[i]);
    if is_digit(b[i]) {
        let v = acc * 10 + (b[i] as int - 48) as nat;
        if v <= MAX_DECLARED {
            lemma_scan_number_extend(b, x, i + 1, v, true);
        }
    } else if b[i] == CR && seen && i + 1 < b.len() {
        assert(bx[i + 1] == b[i + 1]);
    }
}

proof fn lemma_scan_args_bounds(b: Seq<u8>, i: int, left: nat, args: Seq<Seq<u8>>)
    ensures
        match scan_args(b, i, left, args) {
            Frame::Complete(_, n) => i <= n && (left > 0 ==> n <= b.len()),
            _ => true,
        },
    decreases left,
{
    if left > 0 && i < b.len() && b[i] == BULK_MARK {
        lemma_scan_number_bounds(b, i + 1, 0, false);
        if let Scan::Number(n, j) = scan_number(b, i + 1, 0, false) {
            if j + n + 2 <= b.len() && b[j + n] == CR && b[j + n + 1] == LF {
                lemma_scan_args_bounds(b, j + n + 2, (left - 1) as nat, args.push(b.subrange(j, j + n)));
            }
        }
    }
}

proof fn lemma_scan_args_extend(b: Seq<u8>, x: Seq<u8>, i: int, left: nat, args: Seq<Seq<u8>>)
    requires
        0 <= i,
        !(scan_args(b, i, left, args) is Incomplete),
    ensures
        scan_args(b + x, i, left, args) == scan_args(b, i, left, args),
    decreases left,
{
    let bx = b + x;
    if left > 0 {
        assert(bx[i] == b[i]);
        if b[i] == BULK_MARK {
            lemma_scan_number_extend(b, x, i + 1, 0, false);
            lemma_scan_number_bounds(b, i + 1, 0, false);
            if let Scan::Number(n, j) = scan_number(b, i + 1, 0, false) {
                if j + n + 2 <= b.len() {
                    assert(bx[j + n] == b[j + n]);
                    assert(bx[j + n + 1] == b[j + n + 1]);
                    assert(bx.subrange(j, j + n) =~= b.subrange(j, j + n));
                    if b[j + n] == CR && b[j + n + 1] == LF {
                        lemma_scan_args_extend(b, x, j + n + 2, (left - 1) as nat, args.push(b.subrange(j, j + n)));
                    }
                }
            }
        }
    }
}

/// Once the bytes at hand are a complete request, or can never become one,
/// more bytes do not change that outcome: a complete request stays the same
/// request, of the same length.
pub proof fn lemma_extension_keeps_outcome(b: Seq<u8>, x: Seq<u8>)
    requires
        !(parse_request(b) is Incomplete),
    ensures
        parse_request(b + x) == parse_request(b),
{
    let bx = b + x;
    assert(bx[0] == b[0]);
    if b[0] == ARRAY_MARK {
        lemma_scan_number_extend(b, x, 1, 0, false);
        lemma_scan_number_bounds(b, 1, 0, false);
        if let Scan::Number(n, j) = scan_number(b, 1, 0, false) {
            if n > 0 {
                lemma_scan_args_extend(b, x, j, n, seq![]);
            }
        }
    }
}

/// A complete request never ends past the bytes it was framed from.
pub proof fn lemma_complete_within(b: Seq<u8>)
    ensures
        match parse_request(b) {
            Frame::Complete(_, n) => 0 < n <= b.len(),
            _ => true,
        },
{
    if b.len() > 0 && b[0] == ARRAY_MARK {
        lemma_scan_number_bounds(b, 1, 0, false);
        if let Scan::Number(n, j) = scan_number(b, 1, 0, false) {
            if n > 0 {
                lemma_scan_args_bounds(b, j, n, seq![]);
            }
        }
    }
}

proof fn lemma_scan_number_truncate(b: Seq<u8>, i: int, acc: nat, seen: bool, m: int)
    requires
        0 <= i,
        acc <= MAX_DECLARED,
        scan_number(b, i, acc, seen) matches Scan::Number(_, j) && j <= m,
        m <= b.len(),
    ensures
        scan_number(b.subrange(0, m), i, acc, seen) == scan_number(b, i, acc, seen),
    decreases b.len() - i,
{
    let bm = b.subrange(0, m);
    lemma_scan_number_bounds(b, i, acc, seen);
    assert(bm[i] == b[i]);
    if is_digit(b[i]) {
        let v = acc * 10 + (b[i] as int - 48) as nat;
        lemma_scan_number_truncate(b, i + 1, v, true, m);
    } else {
        assert(bm[i + 1] == b[i + 1]);
    }
}

proof fn lemma_scan_args_truncate(b: Seq<u8>, i: int, left: nat, args: Seq<Seq<u8>>, m: int)
    requires
        0 <= i <= m <= b.len(),
        scan_args(b, i, left, args) matches Frame::Complete(_, n) && n <= m,
    ensures
        scan_args(b.subrange(0, m), i, left, args) == scan_args(b, i, left, args),
    decreases left,
{
    let bm = b.subrange(0, m);
    if left > 0 {
        lemma_scan_number_bounds(b, i + 1, 0, false);
        if let Scan::Number(n, j) = scan_number(b, i + 1, 0, false) {
            lemma_scan_args_bounds(b, j + n + 2, (left - 1) as nat, args.push(b.subrange(j, j + n)));
            lemma_scan_number_truncate(b, i + 1, 0, false, m);
            assert(bm.subrange(j, j + n) =~= b.subrange(j, j + n));
            lemma_scan_args_truncate(b, j + n + 2, (left - 1) as nat, args.push(b.subrange(j, j + n)), m);
        }
    }
}

/// The bytes that a complete request took frame, on their own, as that same
/// request.
pub proof fn lemma_complete_prefix(b: Seq<u8>)
    ensures
        parse_request(b) matches Frame::Complete(_, n) ==> parse_request(b.subrange(0, n))
            == parse_request(b),
{
    lemma_complete_within(b);
    if let Frame::Complete(_, m) = parse_request(b) {
        lemma_scan_number_bounds(b, 1, 0, false);
        if let Scan::Number(n, j) = scan_number(b, 1, 0, false) {
            lemma_scan_args_bounds(b, j, n, seq![]);
            lemma_scan_number_truncate(b, 1, 0, false, m);
            lemma_scan_args_truncate(b, j, n, seq![], m);
        }
    }
}

/// A request cut short is still awaiting bytes: every proper prefix of the
/// exact bytes of a request frames as incomplete, so a request written in
/// several pieces is taken only once its last byte has come.
pub proof fn lemma_prefix_incomplete(b: Seq<u8>, k: int)
    requires
        parse_request(b) matches Frame::Complete(_, n) && n == b.len(),
        0 <= k < b.len(),
    ensures
        parse_request(b.subrange(0, k)) is Incomplete,
{
    let p = b.subrange(0, k);
    let x = b.subrange(k, b.len() as int);
    assert(p + x =~= b);
    if !(parse_request(p) is Incomplete) {
        lemma_extension_keeps_outcome(p, x);
        lemma_complete_within(p);
    }
}

/// A request written in several pieces is taken once, whole, as when it is
/// written at once: where the pieces, none empty, make up exactly one request,
/// the bytes gathered after each piece but the last are incomplete, and after
/// the last they are that request.
pub proof fn lemma_pieces_frame_once(pieces: Seq<Seq<u8>>)
    requires
        pieces.len() >= 1,
        forall|i: int| 0 <= i < pieces.len() ==> #[trigger] pieces[i].len() > 0,
        parse_request(pieces.flatten()) matches Frame::Complete(_, n) && n == pieces.flatten().len(),
    ensures
        forall|k: int|
            1 <= k < pieces.len() ==> #[trigger] parse_request(pieces.take(k).flatten()) is Incomplete,
{
    assert forall|k: int| 1 <= k < pieces.len() implies #[trigger] parse_request(
        pieces.take(k).flatten(),
    ) is Incomplete by {
        let head = pieces.take(k);
        let tail = pieces.skip(k);
        assert(head + tail =~= pieces);
        lemma_flatten_concat(head, tail);
        assert(tail[0] == pieces[k]);
        tail.lemma_flatten_length_ge_single_element_length(0);
        let all = pieces.flatten();
        assert(all.subrange(0, head.flatten().len() as int) =~= head.flatten());
        lemma_prefix_incomplete(all, head.flatten().len() as int);
    }
}

/// The decimal digits of `n`, most significant first.
pub open spec fn decimal(n: nat) -> Seq<u8>
    decreases n,
{
    if n < 10 {
        seq![(n + 48) as u8]
    } else {
        decimal(n / 10).push((n % 10 + 48) as u8)
    }
}

/// `a` as a bulk string.
pub open spec fn encode_bulk(a: Seq<u8>) -> Seq<u8> {
    seq![BULK_MARK] + decimal(a.len()) + seq![CR, LF] + a + seq![CR, LF]
}

/// `args` as bulk strings, one after the other.
pub open spec fn encode_bulks(args: Seq<Seq<u8>>) -> Seq<u8>
    decreases args.len(),
{
    if args.len() == 0 {
        Seq::empty()
    } else {
        encode_bulk(args[0]) + encode_bulks(args.skip(1))
    }
}

/// The request whose arguments are `args`.
pub open spec fn encode_request(args: Seq<Seq<u8>>) -> Seq<u8> {
    seq![ARRAY_MARK] + decimal(args.len()) + seq![CR, LF] + encode_bulks(args)
}

/// The requests `sent`, one after another.
pub open spec fn encode_all(sent: Seq<Seq<Seq<u8>>>) -> Seq<u8>
    decreases sent.len(),
{
    if sent.len() == 0 {
        Seq::empty()
    } else {
        encode_request(sent[0]) + encode_all(sent.skip(1))
    }
}

/// A request that a client may send: at least one argument, and no count or
/// length above the largest that may be announced.
pub open spec fn well_formed(args: Seq<Seq<u8>>) -> bool {
    &&& 0 < args.len() <= MAX_DECLARED
    &&& forall|k: int| 0 <= k < args.len() ==> #[trigger] args[k].len() <= MAX_DECLARED
}

proof fn lemma_scan_decimal(b: Seq<u8>, i: int, n: nat)
    requires
        0 <= i,
        n <= MAX_DECLARED,
        i + decimal(n).len() <= b.len(),
        b.subrange(i, i + decimal(n).len()) == decimal(n),
    ensures
        decimal(n).len() >= 1,
        scan_number(b, i, 0, false) == scan_number(b, i + decimal(n).len(), n, true),
    decreases n,
{
    let d = decimal(n);
    if n < 10 {
        assert(b[i] == d[0]);
    } else {
        let h = decimal(n / 10);
        assert(d.subrange(0, h.len() as int) =~= h);
        assert(b.subrange(i, i + h.len()) =~= d.subrange(0, h.len() as int));
        lemma_scan_decimal(b, i, n / 10);
        let j = i + h.len();
        assert(b[j] == d[h.len() as int]);
        assert((n / 10) * 10 + n % 10 == n);
    }
}

proof fn lemma_scan_number_of_decimal(b: Seq<u8>, i: int, n: nat)
    requires
        0 <= i,
        n <= MAX_DECLARED,
        i + decimal(n).len() + 2 <= b.len(),
        b.subrange(i, i + decimal(n).len() + 2) == decimal(n) + seq![CR, LF],
    ensures
        scan_number(b, i, 0, false) == Scan::Number(n, i + decimal(n).len() + 2),
{
    let d = decimal(n);
    let e = d + seq![CR, LF];
    assert forall|k: int| 0 <= k < d.len() implies #[trigger] b.subrange(i, i + d.len())[k] == d[k] by {
        assert(b.subrange(i, i + d.len() + 2)[k] == e[k]);
    }
    assert(b.subrange(i, i + d.len()) =~= d);
    lemma_scan_decimal(b, i, n);
    assert(b[i + d.len()] == e[d.len() as int]);
    assert(b[i + d.len() + 1] == e[d.len() as int + 1]);
}

proof fn lemma_scan_encoded_bulks(b: Seq<u8>, i: int, args: Seq<Seq<u8>>, done: Seq<Seq<u8>>)
    requires
        0 <= i,
        forall|k: int| 0 <= k < args.len() ==> #[trigger] args[k].len() <= MAX_DECLARED,
        i + encode_bulks(args).len() <= b.len(),
        b.subrange(i, i + encode_bulks(args).len()) == encode_bulks(args),
    ensures
        scan_args(b, i, args.len(), done) == Frame::Complete(done + args, i + encode_bulks(args).len()),
    decreases args.len(),
{
    if args.len() == 0 {
        assert(done + args =~= done);
    } else {
        let a = args[0];
        let rest = args.skip(1);
        let eb = encode_bulk(a);
        let d = decimal(a.len());
        let dl = d.len() as int;
        let all = encode_bulks(args);
        assert(all == eb + encode_bulks(rest));
        let j = i + 1 + dl + 2;
        assert(b[i] == all[0]);
        assert(b.subrange(i + 1, i + 1 + dl + 2) =~= all.subrange(1, 1 + dl + 2));
        assert(all.subrange(1, 1 + dl + 2) =~= d + seq![CR, LF]);
        lemma_scan_number_of_decimal(b, i + 1, a.len());
        assert(b.subrange(j, j + a.len()) =~= all.subrange(j - i, j - i + a.len()));
        assert(all.subrange(j - i, j - i + a.len()) =~= a);
        assert(b[j + a.len()] == all[j - i + a.len()]);
        assert(b[j + a.len() + 1] == all[j - i + a.len() + 1]);
        let next = j + a.len() + 2;
        assert(next - i == eb.len());
        assert(b.subrange(next, next + encode_bulks(rest).len()) =~= all.subrange(
            eb.len() as int,
            all.len() as int,
        ));
        assert(all.subrange(eb.len() as int, all.len() as int) =~= encode_bulks(rest));
        assert forall|k: int| 0 <= k < rest.len() implies #[trigger] rest[k].len() <= MAX_DECLARED by {
            assert(rest[k] == args[k + 1]);
        }
        lemma_scan_encoded_bulks(b, next, rest, done.push(a));
        assert(done.push(a) + rest =~= done + args);
    }
}

/// Any well-formed request, whatever bytes follow it, frames as exactly its
/// arguments and its own length.
pub proof fn lemma_request_round_trip(args: Seq<Seq<u8>>, rest: Seq<u8>)
    requires
        well_formed(args),
    ensures
        parse_request(encode_request(args) + rest) == Frame::Complete(
            args,
            encode_request(args).len() as int,
        ),
{
    let e = encode_request(args);
    let b = e + rest;
    let d = decimal(args.len());
    let dl = d.len() as int;
    assert(b[0] == ARRAY_MARK);
    assert(b.subrange(1, 1 + dl + 2) =~= d + seq![CR, LF]);
    lemma_scan_number_of_decimal(b, 1, args.len());
    let j = 1 + dl + 2;
    assert(b.subrange(j, j + encode_bulks(args).len()) =~= encode_bulks(args));
    lemma_scan_encoded_bulks(b, j, args, Seq::empty());
    assert(Seq::<Seq<u8>>::empty() + args =~= args);
}

/// A well-formed request written in any number of non-empty pieces is still
/// awaiting bytes after each piece but the last, and after the last it frames
/// as exactly its arguments, as when it is written at once.
pub proof fn lemma_request_in_pieces(args: Seq<Seq<u8>>, pieces: Seq<Seq<u8>>)
    requires
        well_formed(args),
        pieces.len() >= 1,
        forall|i: int| 0 <= i < pieces.len() ==> #[trigger] pieces[i].len() > 0,
        pieces.flatten() == encode_request(args),
    ensures
        forall|k: int|
            1 <= k < pieces.len() ==> #[trigger] parse_request(pieces.take(k).flatten()) is Incomplete,
        parse_request(pieces.flatten()) == Frame::Complete(args, pieces.flatten().len() as int),
{
    lemma_request_round_trip(args, Seq::empty());
    assert(encode_request(args) + Seq::<u8>::empty() =~= encode_request(args));
    lemma_pieces_frame_once(pieces);
}

fn read_number(buf: &[u8], start: usize) -> (r: Scanned)
    ensures
        scanned_view(r) == scan_number(buf@, start as int, 0, false),
{
    let mut i: usize = start;
    let mut acc: u64 = 0;
    let mut seen: bool = false;
    while i < buf.len()
        invariant
            acc <= MAX_DECLARED,
            start <= i,
            scan_number(buf@, start as int, 0, false) == scan_number(buf@, i as int, acc as nat, seen),
        decreases buf.len() - i,
    {
        let c = buf[i];
        if 48 <= c && c <= 57 {
            let v: u64 = acc * 10 + (c - 48) as u64;
            if v > MAX_DECLARED {
                return Scanned::Invalid;
            }
            acc = v;
            seen = true;
            i = i + 1;
        } else if c == CR && seen {
            if i + 1 >= buf.len() {
                return Scanned::Incomplete;
            } else if buf[i + 1] == LF {
                return Scanned::Number(acc, i + 2);
            } else {
                return Scanned::Invalid;
            }
        } else {
            return Scanned::Invalid;
        }
    }
    Scanned::Incomplete
}

/// Copies `buf[from..to]`.
pub(crate) fn copy_range(buf: &[u8], from: usize, to: usize) -> (r: Vec<u8>)
    requires
        from <= to <= buf.len(),
    ensures
        r@ == buf@.subrange(from as int, to as int),
{
    let mut out: Vec<u8> = Vec::new();
    let mut k: usize = from;
    while k < to
        invariant
            from <= k <= to,
            to <= buf.len(),
            out@ == buf@.subrange(from as int, k as int),
        decreases to - k,
    {
        out.push(buf[k]);
        k = k + 1;
        assert(out@ =~= buf@.subrange(from as int, k as int));
    }
    out
}

/// Frames one request at the start of `buf`.
pub fn parse_command(buf: &[u8]) -> (r: ParseResult)
    ensures
        r@ == parse_request(buf@),
{
    if buf.len() == 0 {
        return ParseResult::Incomplete;
    }
    if buf[0] != ARRAY_MARK {
        return ParseResult::Invalid;
    }
    let count = match read_number(buf, 1) {
        Scanned::Incomplete => {
            return ParseResult::Incomplete;
        },
        Scanned::Invalid => {
            return ParseResult::Invalid;
        },
        Scanned::Number(n, j) => {
            if n == 0 {
                return ParseResult::Invalid;
            }
            (n, j)
        },
    };
    let (n, j) = count;
    proof {
        lemma_scan_number_bounds(buf@, 1, 0, false);
    }
    let mut left: u64 = n;
    let mut i: usize = j;
    let mut args: Vec<Vec<u8>> = Vec::new();
    assert(args_view(args) =~= seq![]);
    while left > 0
        invariant
            i <= buf.len(),
            parse_request(buf@) == scan_args(buf@, i as int, left as nat, args_view(args)),
        decreases left,
    {
        if i >= buf.len() {
            return ParseResult::Incomplete;
        }
        if buf[i] != BULK_MARK {
            return ParseResult::Invalid;
        }
        proof {
            lemma_scan_number_bounds(buf@, i + 1, 0, false);
        }
        match read_number(buf, i + 1) {
            Scanned::Incomplete => {
                return ParseResult::Incomplete;
            },
            Scanned::Invalid => {
                return ParseResult::Invalid;
            },
            Scanned::Number(len, start) => {
                let len = len as usize;
                if len > buf.len() - start || 2 > buf.len() - start - len {
                    return ParseResult::Incomplete;
                }
                let end = start + len;
                if buf[end] != CR || buf[end + 1] != LF {
                    return ParseResult::Invalid;
                }
                let item = copy_range(buf, start, end);
                let ghost before = args_view(args);
                args.push(item);
                assert(args_view(args) =~= before.push(buf@.subrange(start as int, end as int)));
                i = end + 2;
                left = left - 1;
            },
        }
    }
    ParseResult::Complete(args, i)
}

} // verus!
