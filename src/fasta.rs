//! FASTA records: a header and the bases of the lines that follow it.
use vstd::prelude::*;
use vstd::string::StringSliceAdditionalSpecFns;

verus! {

/// The characters `char::is_whitespace` accepts: Unicode White_Space.
pub open spec fn is_space(c: char) -> bool {
    let u = c as u32;
    ||| 9 <= u <= 13
    ||| u == 32
    ||| u == 0x85
    ||| u == 0xa0
    ||| u == 0x1680
    ||| 0x2000 <= u <= 0x200a
    ||| u == 0x2028
    ||| u == 0x2029
    ||| u == 0x202f
    ||| u == 0x205f
    ||| u == 0x3000
}

/// Number of white-space characters that open `s`.
pub open spec fn leading_spaces(s: Seq<char>) -> nat
    decreases s.len(),
{
    if s.len() > 0 && is_space(s[0]) {
        1 + leading_spaces(s.drop_first())
    } else {
        0
    }
}

/// Number of non-white-space characters that open `s`.
pub open spec fn leading_word(s: Seq<char>) -> nat
    decreases s.len(),
{
    if s.len() > 0 && !is_space(s[0]) {
        1 + leading_word(s.drop_first())
    } else {
        0
    }
}

/// The first white-space-delimited token of `s`, empty where there is none.
pub open spec fn first_token(s: Seq<char>) -> Seq<char> {
    let rest = s.subrange(leading_spaces(s) as int, s.len() as int);
    rest.subrange(0, leading_word(rest) as int)
}

proof fn lemma_leading_spaces_bound(s: Seq<char>)
    ensures
        leading_spaces(s) <= s.len(),
    decreases s.len(),
{
    if s.len() > 0 && is_space(s[0]) {
        lemma_leading_spaces_bound(s.drop_first());
    }
}

proof fn lemma_leading_word_bound(s: Seq<char>)
    ensures
        leading_word(s) <= s.len(),
    decreases s.len(),
{
    if s.len() > 0 && !is_space(s[0]) {
        lemma_leading_word_bound(s.drop_first());
    }
}

fn char_is_space(c: char) -> (r: bool)
    ensures
        r == is_space(c),
{
    let u = c as u32;
    (9 <= u && u <= 13) || u == 32 || u == 0x85 || u == 0xa0 || u == 0x1680 || (0x2000 <= u && u
        <= 0x200a) || u == 0x2028 || u == 0x2029 || u == 0x202f || u == 0x205f || u == 0x3000
}

/// The record name of a header: its first white-space-delimited token.
pub fn record_name(header: &str) -> (r: String)
    ensures
        r@ == first_token(header@),
{
    let ghost s = header@;
    let n = header.unicode_len();
    let mut i: usize = 0;
    proof {
        assert(s.subrange(0, n as int) =~= s);
    }
    while i < n && char_is_space(header.get_char(i))
        invariant
            i <= n,
            n == s.len(),
            s == header@,
            leading_spaces(s) == i + leading_spaces(s.subrange(i as int, n as int)),
        decreases n - i,
    {
        proof {
            assert(s.subrange(i as int, n as int).drop_first() =~= s.subrange(i + 1, n as int));
        }
        i += 1;
    }
    proof {
        assert(leading_spaces(s.subrange(i as int, n as int)) == 0);
    }
    let ghost rest = s.subrange(i as int, n as int);
    let mut j: usize = i;
    while j < n && !char_is_space(header.get_char(j))
        invariant
            i <= j <= n,
            n == s.len(),
            s == header@,
            rest == s.subrange(i as int, n as int),
            leading_word(rest) == (j - i) + leading_word(s.subrange(j as int, n as int)),
        decreases n - j,
    {
        proof {
            assert(s.subrange(j as int, n as int).drop_first() =~= s.subrange(j + 1, n as int));
        }
        j += 1;
    }
    proof {
        assert(leading_word(s.subrange(j as int, n as int)) == 0);
        assert(rest.subrange(0, (j - i) as int) =~= s.subrange(i as int, j as int));
    }
    header.substring_char(i, j).to_owned()
}

/// One FASTA record: the header text after `>` and the sequence bytes.
pub struct Fasta {
    pub name: String,
    pub sequence: Vec<u8>,
}

impl Fasta {
    pub fn new(name: String, sequence: Vec<u8>) -> (r: Fasta)
        ensures
            r.name@ == name@,
            r.sequence@ == sequence@,
    {
        Fasta { name, sequence }
    }

    pub fn get_name(&self) -> (r: &str)
        ensures
            r@ == self.name@,
    {
        self.name.as_str()
    }

    pub fn get_sequence(&self) -> (r: &[u8])
        ensures
            r@ == self.sequence@,
    {
        self.sequence.as_slice()
    }
}

/// The bytes stripped from sequence lines: ASCII blanks and line breaks.
pub open spec fn is_blank(b: u8) -> bool {
    b == 9 || b == 10 || b == 11 || b == 12 || b == 13 || b == 32
}

/// `b` without its blank bytes.
pub open spec fn strip_blanks(b: Seq<u8>) -> Seq<u8>
    decreases b.len(),
{
    if b.len() == 0 {
        Seq::empty()
    } else if is_blank(b.last()) {
        strip_blanks(b.drop_last())
    } else {
        strip_blanks(b.drop_last()).push(b.last())
    }
}

/// A header line starts with `>`.
pub open spec fn is_header(line: Seq<char>) -> bool {
    line.len() > 0 && line[0] == '>'
}

/// Why a FASTA text cannot be read.
#[derive(Debug)]
pub enum FastaError {
    /// Sequence data stands before the first header.
    MissingHeader,
}

/// Reads FASTA text line by line: a header line opens a record, the lines
/// that follow add their bases, and the next header or the end closes it.
pub struct FastaReader {
    pending: Option<Fasta>,
}

impl FastaReader {
    /// The open record: its header text and the bases read so far.
    pub closed spec fn open_record(&self) -> Option<(Seq<char>, Seq<u8>)> {
        match self.pending {
            Some(r) => Some((r.name@, r.sequence@)),
            None => None,
        }
    }

    pub fn new() -> (r: FastaReader)
        ensures
            r.open_record() == None::<(Seq<char>, Seq<u8>)>,
    {
        FastaReader { pending: None }
    }

    /// Takes one line, without its line break. A header line returns the
    /// record it closes, if any; a sequence line before any header is an
    /// error unless it is blank.
    pub fn push_line(&mut self, line: &str) -> (r: Result<Option<Fasta>, FastaError>)
        ensures
            is_header(line@) ==> {
                &&& final(self).open_record() == Some((line@.drop_first(), Seq::<u8>::empty()))
                &&& match old(self).open_record() {
                    None => r matches Ok(None),
                    Some((h, b)) => r matches Ok(Some(f)) && f.name@ == h && f.sequence@ == b,
                }
            },
            !is_header(line@) ==> match old(self).open_record() {
                Some((h, b)) => {
                    &&& r matches Ok(None)
                    &&& final(self).open_record() == Some((h, b + strip_blanks(line.spec_bytes())))
                },
                None => {
                    &&& final(self).open_record() == None::<(Seq<char>, Seq<u8>)>
                    &&& (strip_blanks(line.spec_bytes()).len() == 0 ==> (r matches Ok(None)))
                    &&& (strip_blanks(line.spec_bytes()).len() > 0 ==> (r matches Err(
                        FastaError::MissingHeader,
                    )))
                },
            },
    {
        let n = line.unicode_len();
        if n > 0 && line.get_char(0) == '>' {
            let header = line.substring_char(1, n).to_owned();
            proof {
                assert(line@.subrange(1, n as int) =~= line@.drop_first());
            }
            let prev = self.pending.take();
            self.pending = Some(Fasta::new(header, Vec::new()));
            proof {
                assert(self.open_record() == Some((line@.drop_first(), Seq::<u8>::empty())));
            }
            return Ok(prev);
        }
        let bytes = line.as_bytes();
        match self.pending.take() {
            Some(rec) => {
                let mut rec = rec;
                let ghost b0 = rec.sequence@;
                push_stripped(&mut rec.sequence, bytes);
                self.pending = Some(rec);
                Ok(None)
            },
            None => {
                let mut probe: Vec<u8> = Vec::new();
                push_stripped(&mut probe, bytes);
                if probe.len() == 0 {
                    Ok(None)
                } else {
                    Err(FastaError::MissingHeader)
                }
            },
        }
    }

    /// Closes the input: the open record, if any.
    pub fn finish(self) -> (r: Option<Fasta>)
        ensures
            match self.open_record() {
                None => r is None,
                Some((h, b)) => r matches Some(f) && f.name@ == h && f.sequence@ == b,
            },
    {
        self.pending
    }
}

/// Appends the non-blank bytes of `bytes`.
fn push_stripped(out: &mut Vec<u8>, bytes: &[u8])
    ensures
        final(out)@ == old(out)@ + strip_blanks(bytes@),
{
    let ghost start = out@;
    let mut i: usize = 0;
    proof {
        assert(bytes@.subrange(0, 0) =~= Seq::<u8>::empty());
        assert(start + Seq::<u8>::empty() =~= start);
    }
    while i < bytes.len()
        invariant
            i <= bytes@.len(),
            out@ == start + strip_blanks(bytes@.subrange(0, i as int)),
        decreases bytes@.len() - i,
    {
        let b = bytes[i];
        proof {
            let next = bytes@.subrange(0, i + 1);
            assert(next.drop_last() =~= bytes@.subrange(0, i as int));
            assert(next.last() == b);
        }
        if !(b == 9 || b == 10 || b == 11 || b == 12 || b == 13 || b == 32) {
            out.push(b);
            proof {
                assert(out@ =~= start + strip_blanks(bytes@.subrange(0, i + 1)));
            }
        }
        i += 1;
    }
    proof {
        assert(bytes@.subrange(0, i as int) =~= bytes@);
    }
}

} // verus!
