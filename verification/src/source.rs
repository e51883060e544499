//! The source of a paper as arXiv hands it out: where it is, and whether it is an
//! archive or a single file.

use crate::{outside, text};
use vstd::prelude::*;
use vstd::utf8::*;

verus! {

/// How the library names itself to arXiv.
pub const USER_AGENT: &'static str = "ratex/0.1 (academic paper translator)";

/// The name under which a source that is a single file is kept.
pub const SINGLE_FILE: &'static str = "main.tex";

/// The size of a block of a tar archive.
pub const BLOCK_SIZE: usize = 512;

/// Where the checksum of a header starts.
pub const CHECKSUM_START: usize = 148;

/// Where the checksum of a header ends.
pub const CHECKSUM_END: usize = 156;

/// The address of a paper's source.
pub fn source_url(id: &str) -> (r: String)
    ensures
        r@ == "https://arxiv.org/e-print/"@ + id@,
{
    let mut r = "https://arxiv.org/e-print/".to_owned();
    r.append(id);
    r
}

/// Why the source could not be had.
#[derive(Debug)]
pub enum DownloadError {
    NotFound { id: String },
    Refused { status: u16 },
    NotGzip,
}

impl DownloadError {
    pub open spec fn text(self) -> Seq<char> {
        match self {
            DownloadError::NotFound { id } => "Paper '"@ + id@
                + "' not found on arXiv. Verify the paper ID."@,
            DownloadError::Refused { status: _ } => "arXiv returned an error"@,
            DownloadError::NotGzip => "Failed to decompress source (may not be gzipped)"@,
        }
    }

    /// The error in words.
    pub fn message(&self) -> (r: String)
        ensures
            r@ == self.text(),
    {
        match self {
            DownloadError::NotFound { id } => {
                let mut r = "Paper '".to_owned();
                r.append(id.as_str());
                r.append("' not found on arXiv. Verify the paper ID.");
                r
            },
            DownloadError::Refused { status: _ } => "arXiv returned an error".to_owned(),
            DownloadError::NotGzip => {
                "Failed to decompress source (may not be gzipped)".to_owned()
            },
        }
    }
}

/// The status is one of an error, on either side.
pub open spec fn refuses(status: int) -> bool {
    400 <= status <= 599
}

/// Judges the status of arXiv's answer: a missing paper has an error of its own,
/// and every other status of a client or server error is one too.
pub fn check_status(id: &str, status: u16) -> (r: Result<(), DownloadError>)
    ensures
        match r {
            Ok(_) => !(400 <= status < 600),
            Err(DownloadError::NotFound { id: i }) => status == 404 && i@ == id@,
            Err(DownloadError::Refused { status: s }) => 400 <= status < 600 && status != 404 && s
                == status,
            Err(DownloadError::NotGzip) => false,
        },
        r is Err <==> refuses(status as int),
        r is Err && r->Err_0 is NotFound <==> status == 404,
{
    if status == 404 {
        Err(DownloadError::NotFound { id: id.to_owned() })
    } else if 400 <= status && status < 600 {
        Err(DownloadError::Refused { status })
    } else {
        Ok(())
    }
}

// ---------------------------------------------------------------- checksums

/// White space, or a zero character.
pub open spec fn padding(c: char) -> bool {
    text::white_space(c) || c == '\0'
}

/// The text without padding at its start.
pub open spec fn unpadded_start(s: Seq<char>) -> Seq<char>
    decreases s.len(),
{
    if s.len() > 0 && padding(s[0]) {
        unpadded_start(s.skip(1))
    } else {
        s
    }
}

/// The text without padding at its end.
pub open spec fn unpadded_end(s: Seq<char>) -> Seq<char>
    decreases s.len(),
{
    if s.len() > 0 && padding(s.last()) {
        unpadded_end(s.drop_last())
    } else {
        s
    }
}

/// The text without padding at either end.
pub open spec fn unpadded(s: Seq<char>) -> Seq<char> {
    unpadded_end(unpadded_start(s))
}

/// At least one digit, and octal digits only.
pub open spec fn octal_digits(s: Seq<char>) -> bool {
    s.len() > 0 && forall|i: int| 0 <= i < s.len() ==> '0' <= #[trigger] s[i] <= '7'
}

/// The number that octal digits stand for.
pub open spec fn octal_value(s: Seq<char>) -> nat
    decreases s.len(),
{
    if s.len() == 0 {
        0
    } else {
        (octal_value(s.drop_last()) * 8 + (s.last() as int - '0' as int)) as nat
    }
}

/// The digits behind a plus sign, or all of the text.
pub open spec fn unsigned(s: Seq<char>) -> Seq<char> {
    if s.len() > 0 && s[0] == '+' {
        s.skip(1)
    } else {
        s
    }
}

/// The number in a checksum field: octal digits, with a plus sign or none, and
/// padding around them. It has to fit 32 bits.
pub open spec fn checksum_in(field: Seq<u8>) -> Option<nat> {
    let digits = unsigned(unpadded(decode_utf8(field)));
    if valid_utf8(field) && octal_digits(digits) && octal_value(digits) <= u32::MAX {
        Some(octal_value(digits))
    } else {
        None
    }
}

/// The sum of the bytes.
pub open spec fn sum(b: Seq<u8>) -> nat
    decreases b.len(),
{
    if b.len() == 0 {
        0
    } else {
        sum(b.drop_last()) + b.last() as nat
    }
}

/// The checksum of a header: the sum of its bytes, where spaces stand for the
/// checksum itself.
pub open spec fn header_sum(b: Seq<u8>) -> nat {
    sum(b.subrange(0, CHECKSUM_START as int)) + sum(
        b.subrange(CHECKSUM_END as int, BLOCK_SIZE as int),
    ) + 8 * 32
}

/// The bytes start like a tar archive: with an empty block, or with a header
/// that holds its own checksum.
pub open spec fn tar_like(b: Seq<u8>) -> bool {
    &&& b.len() >= BLOCK_SIZE
    &&& (forall|i: int| 0 <= i < BLOCK_SIZE ==> #[trigger] b[i] == 0) || checksum_in(
        b.subrange(CHECKSUM_START as int, CHECKSUM_END as int),
    ) == Some(header_sum(b))
}

proof fn lemma_octal_prefix(s: Seq<char>, i: int)
    requires
        0 <= i <= s.len(),
        octal_digits(s),
    ensures
        octal_value(s.take(i)) <= octal_value(s),
    decreases s.len() - i,
{
    if i < s.len() {
        let t = s.take(i + 1);
        assert(t.drop_last() =~= s.take(i));
        assert(t.last() == s[i]);
        assert(octal_value(s.take(i)) <= octal_value(t));
        lemma_octal_prefix(s, i + 1);
    } else {
        assert(s.take(i) =~= s);
    }
}

/// Is this padding?
fn is_padding(c: char) -> (r: bool)
    ensures
        r == padding(c),
{
    text::is_white_space(c) || c == '\0'
}

/// The number that the octal digits from `from` up to `to` stand for.
fn octal(cs: &Vec<char>, from: usize, to: usize) -> (r: Option<u32>)
    requires
        from <= to <= cs.len(),
    ensures
        ({
            let s = cs@.subrange(from as int, to as int);
            match r {
                Some(v) => octal_digits(s) && octal_value(s) == v,
                None => !(octal_digits(s) && octal_value(s) <= u32::MAX),
            }
        }),
{
    let ghost s = cs@.subrange(from as int, to as int);
    if from == to {
        return None;
    }
    let mut v: u64 = 0;
    let mut i: usize = from;
    assert(s.take(0) =~= Seq::<char>::empty());
    while i < to
        invariant
            from <= i <= to <= cs.len(),
            s == cs@.subrange(from as int, to as int),
            forall|k: int| 0 <= k < i - from ==> '0' <= #[trigger] s[k] <= '7',
            v <= u32::MAX,
            v == octal_value(s.take(i - from)),
        decreases to - i,
    {
        let c = cs[i];
        assert(s[i - from] == c);
        if !('0' <= c && c <= '7') {
            return None;
        }
        let d: u64 = c as u64 - 48;
        v = v * 8 + d;
        proof {
            let t = s.take(i - from + 1);
            assert(t.drop_last() =~= s.take(i - from));
            assert(t.last() == c);
            assert(v == octal_value(t));
            if v > u32::MAX && octal_digits(s) {
                lemma_octal_prefix(s, i - from + 1);
            }
        }
        if v > 0xffff_ffff {
            return None;
        }
        i += 1;
    }
    assert(s.take(to - from) =~= s);
    Some(v as u32)
}

/// The number in a checksum field.
pub fn parse_tar_checksum(field: &[u8]) -> (r: Option<u32>)
    ensures
        match r {
            Some(v) => checksum_in(field@) == Some(v as nat),
            None => checksum_in(field@) is None,
        },
{
    let mut copy: Vec<u8> = Vec::new();
    let mut k: usize = 0;
    while k < field.len()
        invariant
            k <= field.len(),
            copy@ == field@.take(k as int),
        decreases field.len() - k,
    {
        copy.push(field[k]);
        assert(field@.take(k + 1) =~= field@.take(k as int).push(field@[k as int]));
        k += 1;
    }
    assert(field@.take(k as int) =~= field@);
    let value = match outside::string_from_utf8(copy) {
        Some(s) => s,
        None => {
            return None;
        },
    };
    proof {
        encode_utf8_decode_utf8(value@);
    }
    let cs = text::chars_of(value.as_str());
    let ghost s = cs@;
    assert(s == decode_utf8(field@));
    let mut from: usize = 0;
    assert(s.skip(0) =~= s);
    while from < cs.len() && is_padding(cs[from])
        invariant
            from <= cs.len(),
            s == cs@,
            unpadded_start(s) == unpadded_start(s.skip(from as int)),
        decreases cs.len() - from,
    {
        assert(s.skip(from as int).skip(1) =~= s.skip(from + 1));
        from += 1;
    }
    let mut to: usize = cs.len();
    assert(s.subrange(from as int, to as int) =~= s.skip(from as int));
    while to > from && is_padding(cs[to - 1])
        invariant
            from <= to <= cs.len(),
            s == cs@,
            unpadded_end(s.skip(from as int)) == unpadded_end(
                s.subrange(from as int, to as int),
            ),
        decreases to,
    {
        assert(s.subrange(from as int, to as int).drop_last() =~= s.subrange(
            from as int,
            to - 1,
        ));
        to -= 1;
    }
    let ghost trimmed = s.subrange(from as int, to as int);
    assert(unpadded(s) == trimmed);
    let start: usize = if from < to && cs[from] == '+' {
        from + 1
    } else {
        from
    };
    assert(s.subrange(start as int, to as int) =~= unsigned(trimmed));
    octal(&cs, start, to)
}

/// The sum of the bytes from `from` up to `to`.
fn sum_of(bytes: &[u8], from: usize, to: usize) -> (r: u32)
    requires
        from <= to <= bytes.len(),
        to - from <= 1000,
    ensures
        r == sum(bytes@.subrange(from as int, to as int)),
        r <= 255 * (to - from),
{
    let mut r: u32 = 0;
    let mut i: usize = from;
    assert(bytes@.subrange(from as int, from as int) =~= Seq::<u8>::empty());
    while i < to
        invariant
            from <= i <= to <= bytes.len(),
            to - from <= 1000,
            r == sum(bytes@.subrange(from as int, i as int)),
            r <= 255 * (i - from),
        decreases to - i,
    {
        let ghost next = bytes@.subrange(from as int, i + 1);
        assert(next.drop_last() =~= bytes@.subrange(from as int, i as int));
        assert(next.last() == bytes@[i as int]);
        r = r + bytes[i] as u32;
        i += 1;
    }
    r
}

/// Do the bytes start like a tar archive?
pub fn looks_like_tar(bytes: &[u8]) -> (r: bool)
    ensures
        r == tar_like(bytes@),
{
    if bytes.len() < BLOCK_SIZE {
        return false;
    }
    let mut i: usize = 0;
    while i < BLOCK_SIZE && bytes[i] == 0
        invariant
            i <= BLOCK_SIZE <= bytes.len(),
            forall|k: int| 0 <= k < i ==> #[trigger] bytes@[k] == 0,
        decreases BLOCK_SIZE - i,
    {
        i += 1;
    }
    if i == BLOCK_SIZE {
        return true;
    }
    let (_, tail) = bytes.split_at(CHECKSUM_START);
    let (field, _) = tail.split_at(CHECKSUM_END - CHECKSUM_START);
    assert(field@ =~= bytes@.subrange(CHECKSUM_START as int, CHECKSUM_END as int));
    match parse_tar_checksum(field) {
        Some(stored) => {
            let computed: u32 = sum_of(bytes, 0, CHECKSUM_START) + sum_of(
                bytes,
                CHECKSUM_END,
                BLOCK_SIZE,
            ) + 8 * 32;
            stored == computed
        },
        None => false,
    }
}

// ---------------------------------------------------------------- sources

/// A source without its compression: an archive, or a single file.
#[derive(Debug)]
pub enum Source {
    Archive(Vec<u8>),
    SingleFile(Vec<u8>),
}

/// Tells an archive from a single file.
pub fn source_of(bytes: Vec<u8>) -> (r: Source)
    ensures
        match r {
            Source::Archive(b) => tar_like(bytes@) && b == bytes,
            Source::SingleFile(b) => !tar_like(bytes@) && b == bytes,
        },
{
    if looks_like_tar(bytes.as_slice()) {
        Source::Archive(bytes)
    } else {
        Source::SingleFile(bytes)
    }
}

/// Takes the compression away from what arXiv sent, and tells an archive from a
/// single file.
pub fn unpack_source(bytes: &[u8]) -> (r: Result<Source, DownloadError>)
    ensures
        match r {
            Ok(Source::Archive(b)) => outside::gunzipped(bytes@) == Some(b@) && tar_like(b@),
            Ok(Source::SingleFile(b)) => outside::gunzipped(bytes@) == Some(b@) && !tar_like(
                b@,
            ),
            Err(e) => e is NotGzip && outside::gunzipped(bytes@) is None,
        },
{
    match outside::gunzip(bytes) {
        Some(b) => Ok(source_of(b)),
        None => Err(DownloadError::NotGzip),
    }
}

} // verus!
