//! The output sink abstraction and the line-editing command shell.

use crate::keyboard::{get_key, RingBuffer};
use crate::tri_compress::{
    compress_str, encoded, fit, ratio, ratio_of, zero_free_prefix, zero_position,
};
use vstd::array::array_as_slice;
use vstd::prelude::*;
use vstd::slice::slice_subrange;
use vstd::string::StringSliceAdditionalSpecFns;

verus! {

/// An output sink: the display, a serial line, or nothing at all.
///
/// A sink says in three spec functions what its methods promise: when it may
/// be written to, and how its state after a write relates to its state before.
/// A sink that does not say so promises nothing.
pub trait Writer: Sized {
    /// Whether the sink is in a state in which it can be written to.
    open spec fn wf(&self) -> bool {
        true
    }

    /// Whether `post` is a state in which writing `byte` may leave a sink that
    /// was in state `pre`.
    open spec fn byte_written(pre: Self, byte: u8, post: Self) -> bool {
        true
    }

    /// Whether `post` is a state in which writing the string with characters
    /// `s` may leave a sink that was in state `pre`.
    open spec fn string_written(pre: Self, s: Seq<char>, post: Self) -> bool {
        true
    }

    /// Writes one byte.
    fn write_byte(&mut self, byte: u8)
        requires
            old(self).wf(),
        ensures
            final(self).wf(),
            Self::byte_written(*old(self), byte, *final(self)),
    ;

    /// Writes a string.
    fn write_string(&mut self, s: &str)
        requires
            old(self).wf(),
        ensures
            final(self).wf(),
            Self::string_written(*old(self), s@, *final(self)),
    ;
}

/// A sink that discards what is written to it.
pub struct DummyWriter;

impl Writer for DummyWriter {
    fn write_byte(&mut self, _byte: u8) {
    }

    fn write_string(&mut self, _s: &str) {
    }
}

/// Writes a string to a sink.
pub fn print<W: Writer>(writer: &mut W, s: &str)
    requires
        old(writer).wf(),
    ensures
        final(writer).wf(),
        W::string_written(*old(writer), s@, *final(writer)),
{
    writer.write_string(s);
}

/// Whether `post` is a state in which writing the strings `pieces` one
/// after the other may leave a sink that was in state `pre`.
pub open spec fn strings_written<W: Writer>(pre: W, pieces: Seq<Seq<char>>, post: W) -> bool
    decreases pieces.len(),
{
    if pieces.len() == 0 {
        post == pre
    } else {
        exists|mid: W|
            strings_written(pre, pieces.drop_last(), mid) && mid.wf()
                && #[trigger] W::string_written(mid, pieces.last(), post)
    }
}

/// One more string after a series of strings.
pub proof fn lemma_written_push<W: Writer>(
    pre: W,
    pieces: Seq<Seq<char>>,
    mid: W,
    s: Seq<char>,
    post: W,
)
    requires
        strings_written(pre, pieces, mid),
        mid.wf(),
        W::string_written(mid, s, post),
    ensures
        strings_written(pre, pieces.push(s), post),
{
    assert(pieces.push(s).drop_last() =~= pieces);
    assert(pieces.push(s).last() == s);
}

/// One series of strings after another.
pub proof fn lemma_written_join<W: Writer>(
    pre: W,
    first: Seq<Seq<char>>,
    mid: W,
    second: Seq<Seq<char>>,
    post: W,
)
    requires
        strings_written(pre, first, mid),
        strings_written(mid, second, post),
    ensures
        strings_written(pre, first + second, post),
    decreases second.len(),
{
    if second.len() == 0 {
        assert(first + second =~= first);
    } else {
        let inner = choose|inner: W|
            strings_written(mid, second.drop_last(), inner) && inner.wf()
                && #[trigger] W::string_written(inner, second.last(), post);
        lemma_written_join(pre, first, mid, second.drop_last(), inner);
        lemma_written_push(pre, first + second.drop_last(), inner, second.last(), post);
        assert((first + second.drop_last()).push(second.last()) =~= first + second);
    }
}

/// Writes `s` as the next string of a series that began in state `start`.
fn emit<W: Writer>(
    writer: &mut W,
    s: &str,
    Ghost(start): Ghost<W>,
    Ghost(done): Ghost<Seq<Seq<char>>>,
)
    requires
        old(writer).wf(),
        strings_written(start, done, *old(writer)),
    ensures
        final(writer).wf(),
        strings_written(start, done.push(s@), *final(writer)),
{
    print(writer, s);
    proof {
        lemma_written_push(start, done, *old(writer), s@, *writer);
    }
}

/// `String::push`: appends one character to the end of the string.
#[verifier::external_body]
pub(crate) fn string_push(s: &mut String, c: char)
    ensures
        final(s)@ == old(s)@.push(c),
{
    s.push(c)
}

/// The character for a digit value; for a value above 9 the character that
/// many places after `'0'`.
pub open spec fn digit(d: int) -> char {
    (0x30 + d) as u8 as char
}

/// The two-place rendering of a byte: one digit below ten; otherwise the
/// tens, as one character counted up from `'0'`, and the units.
pub open spec fn u8_text(n: u8) -> Seq<char> {
    if n < 10 {
        seq![digit(n as int)]
    } else {
        seq![digit(n as int / 10), digit(n as int % 10)]
    }
}

/// The decimal digits of `n`, most significant first, without leading zeros.
pub open spec fn decimal(n: nat) -> Seq<char>
    decreases n,
{
    if n < 10 {
        seq![digit(n as int)]
    } else {
        decimal(n / 10).push(digit((n % 10) as int))
    }
}

/// Renders a byte in two places; exact for values below one hundred.
pub fn u8_to_str(n: u8) -> (text: String)
    ensures
        text@ == u8_text(n),
{
    let mut text = String::new();
    if n < 10 {
        string_push(&mut text, (0x30 + n) as char);
    } else {
        string_push(&mut text, (0x30 + n / 10) as char);
        string_push(&mut text, (0x30 + n % 10) as char);
    }
    assert(text@ =~= u8_text(n));
    text
}

/// The number of decimal digits of `n`.
pub open spec fn places(n: nat) -> nat
    decreases n,
{
    if n < 10 {
        1
    } else {
        1 + places(n / 10)
    }
}

/// A number that fits 32 bits has at most ten decimal digits.
proof fn lemma_places_u32(n: nat)
    requires
        n <= u32::MAX,
    ensures
        places(n) <= 10,
{
    reveal_with_fuel(places, 11);
}

/// Renders a number in decimal.
pub fn u32_to_str(n: u32) -> (text: String)
    ensures
        text@ == decimal(n as nat),
{
    let mut digits = [0u8;10];
    let mut i: usize = 9;
    let mut rest: u32 = n / 10;
    digits[9] = (n % 10) as u8;
    proof {
        lemma_places_u32(n as nat);
        let tail = Seq::new(1, |k: int| digit(digits@[9 + k] as int));
        if rest > 0 {
            assert(decimal(n as nat) =~= decimal(rest as nat) + tail);
        } else {
            assert(decimal(n as nat) =~= tail);
        }
    }
    while rest > 0
        invariant
            i <= 9,
            places(n as nat) <= 10,
            rest > 0 ==> 10 - i + places(rest as nat) == places(n as nat),
            rest > 0 ==> decimal(n as nat) == decimal(rest as nat) + Seq::new(
                (10 - i) as nat,
                |k: int| digit(digits@[i + k] as int),
            ),
            rest == 0 ==> decimal(n as nat) == Seq::new(
                (10 - i) as nat,
                |k: int| digit(digits@[i + k] as int),
            ),
            forall|k: int| i <= k < 10 ==> #[trigger] digits@[k] < 10,
        decreases rest,
    {
        let ghost tail = Seq::new((10 - i) as nat, |k: int| digit(digits@[i + k] as int));
        let ghost before = rest;
        i -= 1;
        digits[i] = (rest % 10) as u8;
        rest /= 10;
        proof {
            let longer = Seq::new((10 - i) as nat, |k: int| digit(digits@[i + k] as int));
            assert(longer =~= seq![digit((before % 10) as int)] + tail);
            if rest > 0 {
                assert(decimal(before as nat) == decimal(rest as nat).push(
                    digit((before % 10) as int),
                ));
                assert(decimal(n as nat) =~= decimal(rest as nat) + longer);
            } else {
                assert(decimal(before as nat) =~= seq![digit(before as int)]);
                assert(decimal(n as nat) =~= longer);
            }
        }
    }
    let mut text = String::new();
    let mut k: usize = i;
    let ghost all = Seq::new((10 - i) as nat, |j: int| digit(digits@[i + j] as int));
    while k < 10
        invariant
            i <= k <= 10,
            all == Seq::new((10 - i) as nat, |j: int| digit(digits@[i + j] as int)),
            text@ == all.take(k - i),
            forall|j: int| i <= j < 10 ==> #[trigger] digits@[j] < 10,
        decreases 10 - k,
    {
        string_push(&mut text, (0x30 + digits[k]) as char);
        proof {
            assert(all.take(k + 1 - i) =~= all.take(k - i).push(digit(digits@[k as int] as int)));
        }
        k += 1;
    }
    proof {
        assert(all.take(10 - i) =~= all);
    }
    text
}

/// Whether a byte is ASCII white space.
pub open spec fn is_blank(byte: u8) -> bool {
    byte == 0x20 || (0x09 <= byte && byte <= 0x0d)
}

/// The number of white-space bytes at the start of `s`.
pub open spec fn leading_blanks(s: Seq<u8>) -> nat
    decreases s.len(),
{
    if s.len() > 0 && is_blank(s[0]) {
        1 + leading_blanks(s.drop_first())
    } else {
        0
    }
}

/// The number of white-space bytes at the end of `s`.
pub open spec fn trailing_blanks(s: Seq<u8>) -> nat
    decreases s.len(),
{
    if s.len() > 0 && is_blank(s.last()) {
        1 + trailing_blanks(s.drop_last())
    } else {
        0
    }
}

/// `s` without the white space at its start and at its end.
pub open spec fn trimmed(s: Seq<u8>) -> Seq<u8> {
    let rest = s.skip(leading_blanks(s) as int);
    rest.take(rest.len() - trailing_blanks(rest))
}

/// `n` blank bytes at the start and none after them: `n` leading blanks.
proof fn lemma_leading_blanks_is(s: Seq<u8>, n: int)
    requires
        0 <= n <= s.len(),
        forall|j: int| 0 <= j < n ==> is_blank(#[trigger] s[j]),
        n < s.len() ==> !is_blank(s[n]),
    ensures
        leading_blanks(s) == n,
    decreases n,
{
    if n > 0 {
        let rest = s.drop_first();
        assert forall|j: int| 0 <= j < n - 1 implies is_blank(#[trigger] rest[j]) by {
            assert(rest[j] == s[j + 1]);
        }
        lemma_leading_blanks_is(rest, n - 1);
    }
}

/// `n` blank bytes at the end and none before them: `n` trailing blanks.
proof fn lemma_trailing_blanks_is(s: Seq<u8>, n: int)
    requires
        0 <= n <= s.len(),
        forall|j: int| s.len() - n <= j < s.len() ==> is_blank(#[trigger] s[j]),
        n < s.len() ==> !is_blank(s[s.len() - n - 1]),
    ensures
        trailing_blanks(s) == n,
    decreases n,
{
    if n > 0 {
        let rest = s.drop_last();
        assert forall|j: int| rest.len() - (n - 1) <= j < rest.len() implies is_blank(
            #[trigger] rest[j],
        ) by {
            assert(rest[j] == s[j]);
        }
        lemma_trailing_blanks_is(rest, n - 1);
    }
}

fn blank(byte: u8) -> (b: bool)
    ensures
        b == is_blank(byte),
{
    byte == 0x20 || (0x09 <= byte && byte <= 0x0d)
}

/// Cuts the white space off both ends of a line.
pub fn trim(line: &[u8]) -> (name: &[u8])
    ensures
        name@ == trimmed(line@),
{
    let mut start: usize = 0;
    while start < line.len() && blank(line[start])
        invariant
            start <= line@.len(),
            forall|j: int| 0 <= j < start ==> is_blank(#[trigger] line@[j]),
        decreases line@.len() - start,
    {
        start += 1;
    }
    let mut end: usize = line.len();
    while end > start && blank(line[end - 1])
        invariant
            start <= end <= line@.len(),
            forall|j: int| end <= j < line@.len() ==> is_blank(#[trigger] line@[j]),
        decreases end,
    {
        end -= 1;
    }
    proof {
        lemma_leading_blanks_is(line@, start as int);
        let rest = line@.skip(start as int);
        lemma_trailing_blanks_is(rest, line@.len() - end);
        assert(line@.subrange(start as int, end as int) =~= rest.take(
            rest.len() - (line@.len() - end),
        ));
    }
    slice_subrange(line, start, end)
}

/// Whether two byte strings are equal.
fn bytes_eq(a: &[u8], b: &[u8]) -> (same: bool)
    ensures
        same == (a@ == b@),
{
    if a.len() != b.len() {
        return false;
    }
    let mut i: usize = 0;
    while i < a.len()
        invariant
            i <= a@.len(),
            a@.len() == b@.len(),
            forall|j: int| 0 <= j < i ==> a@[j] == b@[j],
        decreases a@.len() - i,
    {
        if a[i] != b[i] {
            return false;
        }
        i += 1;
    }
    assert(a@ =~= b@);
    true
}

/// The prompt.
pub const PROMPT: &'static str = "tri> ";

/// Capacity of the line buffer; a line holds one byte less.
pub const CMD_BUF_SIZE: usize = 128;

/// Number of lines that the history keeps.
pub const HISTORY_SIZE: usize = 5;

/// Whether the shell accepts a byte into the line: printable ASCII or space.
pub open spec fn is_typeable(byte: u8) -> bool {
    0x20 <= byte && byte <= 0x7e
}

/// Whether every byte of a line is one that the shell accepts.
pub open spec fn is_line(s: Seq<u8>) -> bool {
    s.len() < CMD_BUF_SIZE && forall|j: int| 0 <= j < s.len() ==> is_typeable(#[trigger] s[j])
}

/// The characters of a line.
pub open spec fn line_text(s: Seq<u8>) -> Seq<char> {
    Seq::new(s.len(), |i: int| s[i] as char)
}

/// The history after a line was recorded: the line is the newest entry, and
/// the oldest entry leaves where `HISTORY_SIZE` lines were kept already.
pub open spec fn remembered(history: Seq<Seq<u8>>, line: Seq<u8>) -> Seq<Seq<u8>> {
    if history.len() < HISTORY_SIZE {
        history.push(line)
    } else {
        history.drop_first().push(line)
    }
}

/// The last lines that were entered, at most `HISTORY_SIZE` of them, in a
/// ring: `pos` is the slot that the next line goes to, `count` the number of
/// slots in use.
pub struct History {
    entries: [[u8; 128]; 5],
    lens: [usize; 5],
    count: usize,
    pos: usize,
}

impl View for History {
    type V = Seq<Seq<u8>>;

    /// The recorded lines, oldest first.
    closed spec fn view(&self) -> Seq<Seq<u8>> {
        Seq::new(self.count as nat, |i: int| self.slot((self.pos + i + 5 - self.count) % 5))
    }
}

impl History {
    closed spec fn slot(&self, k: int) -> Seq<u8> {
        self.entries@[k]@.take(self.lens@[k] as int)
    }

    /// The cursors are in range and every slot holds a line.
    pub closed spec fn wf(&self) -> bool {
        &&& self.count <= HISTORY_SIZE
        &&& self.pos < HISTORY_SIZE
        &&& forall|k: int| 0 <= k < 5 ==> #[trigger] self.lens@[k] <= CMD_BUF_SIZE
    }

    /// At most `HISTORY_SIZE` lines are kept, none longer than the line
    /// buffer.
    pub proof fn law_bounds(&self)
        requires
            self.wf(),
        ensures
            self@.len() <= HISTORY_SIZE,
            forall|i: int| 0 <= i < self@.len() ==> (#[trigger] self@[i]).len() <= CMD_BUF_SIZE,
    {
    }

    /// An empty history.
    pub fn new() -> (history: History)
        ensures
            history.wf(),
            history@ == Seq::<Seq<u8>>::empty(),
    {
        let history = History { entries: [[0u8;128];5], lens: [0usize;5], count: 0, pos: 0 };
        assert(history@ =~= Seq::<Seq<u8>>::empty());
        history
    }

    /// The number of lines kept.
    pub fn len(&self) -> (n: usize)
        requires
            self.wf(),
        ensures
            n == self@.len(),
            n <= HISTORY_SIZE,
    {
        self.count
    }

    /// Records the first `len` bytes of `line` as the newest entry.
    pub fn record(&mut self, line: &[u8; 128], len: usize)
        requires
            old(self).wf(),
            len <= CMD_BUF_SIZE,
        ensures
            final(self).wf(),
            final(self)@ == remembered(old(self)@, line@.take(len as int)),
    {
        let ghost before = *self;
        self.entries[self.pos] = *line;
        self.lens[self.pos] = len;
        self.pos = (self.pos + 1) % HISTORY_SIZE;
        if self.count < HISTORY_SIZE {
            self.count += 1;
        }
        proof {
            let entry = line@.take(len as int);
            assert(self.slot(before.pos as int) =~= entry);
            assert forall|k: int| 0 <= k < 5 && k != before.pos implies #[trigger] self.slot(k)
                == before.slot(k) by {}
            let after = self@;
            let want = remembered(before@, entry);
            assert(after.len() == want.len());
            assert forall|i: int| 0 <= i < after.len() implies after[i] == want[i] by {
                let k = (self.pos + i + 5 - self.count) % 5;
                if before.count < 5 {
                    if i < before.count {
                        assert(k == (before.pos + i + 5 - before.count) % 5);
                        assert(k != before.pos);
                    } else {
                        assert(k == before.pos);
                    }
                } else {
                    if i < 4 {
                        assert(k == (before.pos + (i + 1) + 5 - before.count) % 5);
                        assert(k != before.pos);
                        assert(want[i] == before@[i + 1]);
                    } else {
                        assert(k == before.pos);
                    }
                }
            }
            assert(after =~= want);
        }
    }

    /// The characters of the entry at index `i`, counted from the oldest.
    pub fn entry_text(&self, i: usize) -> (text: String)
        requires
            self.wf(),
            i < self@.len(),
        ensures
            text@ == line_text(self@[i as int]),
    {
        let k = (self.pos + i + 5 - self.count) % 5;
        let len = self.lens[k];
        let mut text = String::new();
        let mut j: usize = 0;
        let ghost entry = self@[i as int];
        assert(entry == self.slot(k as int));
        while j < len
            invariant
                j <= len,
                k < 5,
                len == self.lens@[k as int],
                len <= CMD_BUF_SIZE,
                entry == self.entries@[k as int]@.take(len as int),
                text@ == line_text(entry.take(j as int)),
            decreases len - j,
        {
            let byte = self.entries[k][j];
            string_push(&mut text, byte as char);
            proof {
                assert(line_text(entry.take(j + 1)) =~= line_text(entry.take(j as int)).push(
                    byte as char,
                ));
            }
            j += 1;
        }
        proof {
            assert(entry.take(len as int) =~= entry);
        }
        text
    }
}

/// The block that the `tri-ratio` command encodes.
pub const RATIO_SAMPLE: &'static str = "TRI Test no Shell!!!";

/// What `help` prints.
pub open spec fn help_text() -> Seq<Seq<char>> {
    seq![
        "Comandos disponíveis:\n"@,
        "  help    - mostra esta ajuda\n"@,
        "  hello   - mensagem de teste\n"@,
        "  tri-ratio - stats da compressão TRI\n"@,
        "  halt    - para o kernel\n"@,
        "  history - mostra os últimos comandos\n"@,
    ]
}

/// What `hello` prints.
pub open spec fn hello_text() -> Seq<Seq<char>> {
    seq!["Olá, TRI Kernel! Bem-vindo ao mini-shell bare-metal.\n"@]
}

/// What `halt` prints before the shell stops.
pub open spec fn halt_text() -> Seq<Seq<char>> {
    seq!["Haltando TRI Kernel...\n"@]
}

/// What a line prints that is no command.
pub open spec fn unknown_text() -> Seq<Seq<char>> {
    seq!["Comando não reconhecido. Digite 'help'.\n"@]
}

/// The number of pairs before the first zero byte of the encoded sample.
pub open spec fn sample_pairs() -> nat {
    zero_free_prefix(encoded(fit(RATIO_SAMPLE.spec_bytes()))) / 2
}

/// What `tri-ratio` prints: the ratio of the sample block to its encoded
/// pairs in percent, and both sizes.
pub open spec fn ratio_text() -> Seq<Seq<char>> {
    seq![
        "TRI Ratio: "@,
        u8_text(ratio_of(sample_pairs())),
        "% ("@,
        decimal(32),
        " -> "@,
        decimal(sample_pairs()),
        " bytes)\n"@,
    ]
}

/// The numbered lines of a history listing, oldest first, counted from 1.
pub open spec fn history_lines(history: Seq<Seq<u8>>) -> Seq<Seq<char>>
    decreases history.len(),
{
    if history.len() == 0 {
        Seq::empty()
    } else {
        history_lines(history.drop_last()) + seq![
            "  "@,
            decimal(history.len()),
            ": "@,
            line_text(history.last()),
            "\n"@,
        ]
    }
}

/// What `history` prints: a heading, then the numbered lines, or a note
/// where there are none.
pub open spec fn history_text(history: Seq<Seq<u8>>) -> Seq<Seq<char>> {
    if history.len() == 0 {
        seq!["Histórico de comandos:\n"@, "  (vazio)\n"@]
    } else {
        seq!["Histórico de comandos:\n"@] + history_lines(history)
    }
}

/// Whether a line is the `halt` command.
pub open spec fn is_halt(line: Seq<u8>) -> bool {
    trimmed(line) == "halt".spec_bytes()
}

/// What a line prints when it is dispatched: the line is trimmed and matched
/// against the command names, exactly and with case; an empty line prints
/// nothing, and a line that is no command prints one fixed line.
pub open spec fn command_output(line: Seq<u8>, history: Seq<Seq<u8>>) -> Seq<Seq<char>> {
    let name = trimmed(line);
    if name == "help".spec_bytes() {
        help_text()
    } else if name == "hello".spec_bytes() {
        hello_text()
    } else if name == "tri-ratio".spec_bytes() {
        ratio_text()
    } else if name == "halt".spec_bytes() {
        halt_text()
    } else if name == "history".spec_bytes() {
        history_text(history)
    } else if name.len() == 0 {
        Seq::empty()
    } else {
        unknown_text()
    }
}

/// The bytes of the command names.
pub proof fn lemma_command_names()
    ensures
        "help".spec_bytes() == seq![0x68u8, 0x65, 0x6c, 0x70],
        "hello".spec_bytes() == seq![0x68u8, 0x65, 0x6c, 0x6c, 0x6f],
        "tri-ratio".spec_bytes() == seq![0x74u8, 0x72, 0x69, 0x2d, 0x72, 0x61, 0x74, 0x69, 0x6f],
        "halt".spec_bytes() == seq![0x68u8, 0x61, 0x6c, 0x74],
        "history".spec_bytes() == seq![0x68u8, 0x69, 0x73, 0x74, 0x6f, 0x72, 0x79],
{
    broadcast use vstd::string::is_ascii_spec_bytes;

    reveal_strlit("help");
    reveal_strlit("hello");
    reveal_strlit("tri-ratio");
    reveal_strlit("halt");
    reveal_strlit("history");
    assert(vstd::string::is_ascii("help"));
    assert(vstd::string::is_ascii("hello"));
    assert(vstd::string::is_ascii("tri-ratio"));
    assert(vstd::string::is_ascii("halt"));
    assert(vstd::string::is_ascii("history"));
    assert("help".spec_bytes() =~= seq![0x68u8, 0x65, 0x6c, 0x70]);
    assert("hello".spec_bytes() =~= seq![0x68u8, 0x65, 0x6c, 0x6c, 0x6f]);
    assert("tri-ratio".spec_bytes() =~= seq![
        0x74u8,
        0x72,
        0x69,
        0x2d,
        0x72,
        0x61,
        0x74,
        0x69,
        0x6f,
    ]);
    assert("halt".spec_bytes() =~= seq![0x68u8, 0x61, 0x6c, 0x74]);
    assert("history".spec_bytes() =~= seq![0x68u8, 0x69, 0x73, 0x74, 0x6f, 0x72, 0x79]);
}

/// Dispatches a line to the command table and prints what the command has
/// to say. Returns whether the command was `halt`.
///
/// The line is one that the shell has taken: shorter than the line buffer
/// and made of printable ASCII and spaces only. On such a line the only
/// white space is the space, so trimming ASCII white space is trimming all of
/// it.
pub fn handle_command<W: Writer>(writer: &mut W, cmd: &[u8], history: &History) -> (halt: bool)
    requires
        old(writer).wf(),
        history.wf(),
        is_line(cmd@),
    ensures
        final(writer).wf(),
        strings_written(*old(writer), command_output(cmd@, history@), *final(writer)),
        halt == is_halt(cmd@),
{
    let ghost start = *writer;
    let ghost mut done: Seq<Seq<char>> = Seq::empty();
    let name = trim(cmd);
    let mut halt = false;
    proof {
        lemma_command_names();
        assert("help".spec_bytes()[1] != "halt".spec_bytes()[1]);
        assert("hello".spec_bytes().len() != "halt".spec_bytes().len());
        assert("tri-ratio".spec_bytes().len() != "halt".spec_bytes().len());
    }
    if bytes_eq(name, "help".as_bytes()) {
        emit(writer, "Comandos disponíveis:\n", Ghost(start), Ghost(done));
        proof {
            done = done.push("Comandos disponíveis:\n"@);
        }
        emit(writer, "  help    - mostra esta ajuda\n", Ghost(start), Ghost(done));
        proof {
            done = done.push("  help    - mostra esta ajuda\n"@);
        }
        emit(writer, "  hello   - mensagem de teste\n", Ghost(start), Ghost(done));
        proof {
            done = done.push("  hello   - mensagem de teste\n"@);
        }
        emit(writer, "  tri-ratio - stats da compressão TRI\n", Ghost(start), Ghost(done));
        proof {
            done = done.push("  tri-ratio - stats da compressão TRI\n"@);
        }
        emit(writer, "  halt    - para o kernel\n", Ghost(start), Ghost(done));
        proof {
            done = done.push("  halt    - para o kernel\n"@);
        }
        emit(writer, "  history - mostra os últimos comandos\n", Ghost(start), Ghost(done));
        proof {
            done = done.push("  history - mostra os últimos comandos\n"@);
            assert(done =~= help_text());
        }
    } else if bytes_eq(name, "hello".as_bytes()) {
        emit(
            writer,
            "Olá, TRI Kernel! Bem-vindo ao mini-shell bare-metal.\n",
            Ghost(start),
            Ghost(done),
        );
        proof {
            done = done.push("Olá, TRI Kernel! Bem-vindo ao mini-shell bare-metal.\n"@);
            assert(done =~= hello_text());
        }
    } else if bytes_eq(name, "tri-ratio".as_bytes()) {
        let compressed = compress_str(RATIO_SAMPLE);
        let comp_len: u32 = (zero_position(&compressed) / 2) as u32;
        let percent = ratio(comp_len);
        let percent_text = u8_to_str(percent);
        let from_text = u32_to_str(32);
        let to_text = u32_to_str(comp_len);
        emit(writer, "TRI Ratio: ", Ghost(start), Ghost(done));
        proof {
            done = done.push("TRI Ratio: "@);
        }
        emit(writer, percent_text.as_str(), Ghost(start), Ghost(done));
        proof {
            done = done.push(percent_text@);
        }
        emit(writer, "% (", Ghost(start), Ghost(done));
        proof {
            done = done.push("% ("@);
        }
        emit(writer, from_text.as_str(), Ghost(start), Ghost(done));
        proof {
            done = done.push(from_text@);
        }
        emit(writer, " -> ", Ghost(start), Ghost(done));
        proof {
            done = done.push(" -> "@);
        }
        emit(writer, to_text.as_str(), Ghost(start), Ghost(done));
        proof {
            done = done.push(to_text@);
        }
        emit(writer, " bytes)\n", Ghost(start), Ghost(done));
        proof {
            done = done.push(" bytes)\n"@);
            assert(done =~= ratio_text());
        }
    } else if bytes_eq(name, "halt".as_bytes()) {
        emit(writer, "Haltando TRI Kernel...\n", Ghost(start), Ghost(done));
        proof {
            done = done.push("Haltando TRI Kernel...\n"@);
            assert(done =~= halt_text());
        }
        halt = true;
    } else if bytes_eq(name, "history".as_bytes()) {
        emit(writer, "Histórico de comandos:\n", Ghost(start), Ghost(done));
        proof {
            done = done.push("Histórico de comandos:\n"@);
        }
        let count = history.len();
        if count == 0 {
            emit(writer, "  (vazio)\n", Ghost(start), Ghost(done));
            proof {
                done = done.push("  (vazio)\n"@);
                assert(done =~= history_text(history@));
            }
        } else {
            let mut i: usize = 0;
            proof {
                assert(history@.take(0) =~= Seq::<Seq<u8>>::empty());
                assert(done =~= seq!["Histórico de comandos:\n"@] + history_lines(
                    history@.take(0),
                ));
            }
            while i < count
                invariant
                    i <= count,
                    count == history@.len(),
                    history.wf(),
                    writer.wf(),
                    strings_written(start, done, *writer),
                    done == seq!["Histórico de comandos:\n"@] + history_lines(
                        history@.take(i as int),
                    ),
                decreases count - i,
            {
                let number = u32_to_str((i + 1) as u32);
                let entry = history.entry_text(i);
                let ghost head = done;
                emit(writer, "  ", Ghost(start), Ghost(done));
                proof {
                    done = done.push("  "@);
                }
                emit(writer, number.as_str(), Ghost(start), Ghost(done));
                proof {
                    done = done.push(number@);
                }
                emit(writer, ": ", Ghost(start), Ghost(done));
                proof {
                    done = done.push(": "@);
                }
                emit(writer, entry.as_str(), Ghost(start), Ghost(done));
                proof {
                    done = done.push(entry@);
                }
                emit(writer, "\n", Ghost(start), Ghost(done));
                proof {
                    done = done.push("\n"@);
                    let longer = history@.take(i + 1);
                    assert(longer.drop_last() =~= history@.take(i as int));
                    assert(longer.last() == history@[i as int]);
                    assert(done =~= head + seq![
                        "  "@,
                        decimal(longer.len()),
                        ": "@,
                        line_text(longer.last()),
                        "\n"@,
                    ]);
                    assert(done =~= seq!["Histórico de comandos:\n"@] + history_lines(longer));
                }
                i += 1;
            }
            proof {
                assert(history@.take(count as int) =~= history@);
            }
        }
    } else if name.len() == 0 {
    } else {
        emit(writer, "Comando não reconhecido. Digite 'help'.\n", Ghost(start), Ghost(done));
        proof {
            done = done.push("Comando não reconhecido. Digite 'help'.\n"@);
            assert(done =~= unknown_text());
        }
    }
    halt
}

/// The state of the shell as a value: the line being edited, the recorded
/// lines, oldest first, and whether the shell has halted.
pub struct ShellState {
    pub line: Seq<u8>,
    pub history: Seq<Seq<u8>>,
    pub halted: bool,
}

/// Whether a key ends the line: line feed or carriage return.
pub open spec fn is_enter(byte: u8) -> bool {
    byte == 0x0a || byte == 0x0d
}

/// Whether a key erases: backspace or delete.
pub open spec fn is_erase(byte: u8) -> bool {
    byte == 0x08 || byte == 0x7f
}

/// Whether a key joins the line: the line has room and the key is printable
/// or a space.
pub open spec fn accepts(line: Seq<u8>, byte: u8) -> bool {
    line.len() < CMD_BUF_SIZE - 1 && is_typeable(byte)
}

/// The history once a line has been ended: an empty line is not recorded.
pub open spec fn history_after(state: ShellState) -> Seq<Seq<u8>> {
    if state.line.len() > 0 {
        remembered(state.history, state.line)
    } else {
        state.history
    }
}

/// The state after a key. A halted shell ignores every key. Enter ends the
/// line: it is recorded, dispatched and cleared, and `halt` halts the shell.
/// An erasing key removes the last byte of the line, if there is one. Any
/// other key joins the line if the line accepts it.
pub open spec fn next_state(state: ShellState, byte: u8) -> ShellState {
    if state.halted {
        state
    } else if is_enter(byte) {
        ShellState {
            line: Seq::empty(),
            history: history_after(state),
            halted: is_halt(state.line),
        }
    } else if is_erase(byte) {
        if state.line.len() > 0 {
            ShellState { line: state.line.drop_last(), ..state }
        } else {
            state
        }
    } else if accepts(state.line, byte) {
        ShellState { line: state.line.push(byte), ..state }
    } else {
        state
    }
}

/// What a key prints. Enter prints a line feed, what the command has to say
/// and, unless the shell halts, the prompt. An erasing key that removes a
/// byte prints backspace, space, backspace. A key that joins the line is
/// echoed. Nothing else prints anything.
pub open spec fn key_output(state: ShellState, byte: u8) -> Seq<Seq<char>> {
    if state.halted {
        Seq::empty()
    } else if is_enter(byte) {
        seq!["\n"@] + command_output(state.line, history_after(state)) + if is_halt(state.line) {
            Seq::<Seq<char>>::empty()
        } else {
            seq![PROMPT@]
        }
    } else if is_erase(byte) {
        if state.line.len() > 0 {
            seq!["\x08 \x08"@]
        } else {
            Seq::empty()
        }
    } else if accepts(state.line, byte) {
        seq![seq![byte as char]]
    } else {
        Seq::empty()
    }
}

/// The line editor and command interpreter.
pub struct Shell {
    buffer: [u8; 128],
    idx: usize,
    history: History,
    halted: bool,
}

impl View for Shell {
    type V = ShellState;

    closed spec fn view(&self) -> ShellState {
        ShellState {
            line: self.buffer@.take(self.idx as int),
            history: self.history@,
            halted: self.halted,
        }
    }
}

impl Shell {
    /// The line fits its buffer and holds only bytes that the shell accepts,
    /// and the history is in order.
    pub closed spec fn wf(&self) -> bool {
        &&& self.idx < CMD_BUF_SIZE
        &&& is_line(self.buffer@.take(self.idx as int))
        &&& self.history.wf()
        &&& forall|i: int| 0 <= i < self.history@.len() ==> is_line(#[trigger] self.history@[i])
    }

    /// The line and every recorded line are made of bytes that the shell
    /// accepts, and at most `HISTORY_SIZE` lines are recorded.
    pub proof fn law_lines(&self)
        requires
            self.wf(),
        ensures
            is_line(self@.line),
            self@.history.len() <= HISTORY_SIZE,
            forall|i: int| 0 <= i < self@.history.len() ==> is_line(#[trigger] self@.history[i]),
    {
        self.history.law_bounds();
    }

    /// A shell with an empty line and an empty history; prints the prompt.
    pub fn new<W: Writer>(writer: &mut W) -> (shell: Shell)
        requires
            old(writer).wf(),
        ensures
            final(writer).wf(),
            shell.wf(),
            shell@ == (ShellState { line: Seq::empty(), history: Seq::empty(), halted: false }),
            strings_written(*old(writer), seq![PROMPT@], *final(writer)),
    {
        let shell = Shell { buffer: [0u8;128], idx: 0, history: History::new(), halted: false };
        emit(writer, PROMPT, Ghost(*old(writer)), Ghost(Seq::empty()));
        proof {
            assert(Seq::<Seq<char>>::empty().push(PROMPT@) =~= seq![PROMPT@]);
            assert(shell@.line =~= Seq::<u8>::empty());
        }
        shell
    }

    /// Whether the shell has halted.
    pub fn is_halted(&self) -> (halted: bool)
        ensures
            halted == self@.halted,
    {
        self.halted
    }

    /// Handles one key: edits the line, echoes, and on Enter dispatches the
    /// line. Returns whether the shell has halted.
    pub fn handle_key<W: Writer>(&mut self, writer: &mut W, byte: u8) -> (halt: bool)
        requires
            old(self).wf(),
            old(writer).wf(),
        ensures
            final(self).wf(),
            final(writer).wf(),
            final(self)@ == next_state(old(self)@, byte),
            strings_written(*old(writer), key_output(old(self)@, byte), *final(writer)),
            halt == final(self)@.halted,
    {
        let ghost start = *writer;
        let ghost state = self@;
        if self.halted {
            return true;
        }
        if byte == 0x0a || byte == 0x0d {
            emit(writer, "\n", Ghost(start), Ghost(Seq::empty()));
            let ghost echoed: Seq<Seq<char>> = Seq::<Seq<char>>::empty().push("\n"@);
            if self.idx > 0 {
                self.history.record(&self.buffer, self.idx);
            }
            assert(self.history@ == history_after(state));
            let ghost mid = *writer;
            let line = slice_subrange(array_as_slice(&self.buffer), 0, self.idx);
            assert(line@ =~= state.line);
            let halt = handle_command(writer, line, &self.history);
            proof {
                lemma_written_join(
                    start,
                    echoed,
                    mid,
                    command_output(state.line, history_after(state)),
                    *writer,
                );
            }
            let ghost said = echoed + command_output(state.line, history_after(state));
            self.idx = 0;
            self.buffer = [0u8;128];
            self.halted = halt;
            if !halt {
                emit(writer, PROMPT, Ghost(start), Ghost(said));
            }
            proof {
                assert(self@.line =~= Seq::<u8>::empty());
                assert(echoed =~= seq!["\n"@]);
                if halt {
                    assert(said =~= key_output(state, byte));
                } else {
                    assert(said.push(PROMPT@) =~= key_output(state, byte));
                }
            }
            halt
        } else if byte == 0x08 || byte == 0x7f {
            if self.idx > 0 {
                self.idx -= 1;
                emit(writer, "\x08 \x08", Ghost(start), Ghost(Seq::empty()));
                proof {
                    assert(self@.line =~= state.line.drop_last());
                    assert(Seq::<Seq<char>>::empty().push("\x08 \x08"@) =~= key_output(
                        state,
                        byte,
                    ));
                }
            }
            false
        } else {
            if self.idx < CMD_BUF_SIZE - 1 && 0x20 <= byte && byte <= 0x7e {
                self.buffer[self.idx] = byte;
                self.idx += 1;
                let mut echo = String::new();
                string_push(&mut echo, byte as char);
                emit(writer, echo.as_str(), Ghost(start), Ghost(Seq::empty()));
                proof {
                    assert(self@.line =~= state.line.push(byte));
                    assert(echo@ =~= seq![byte as char]);
                    assert(Seq::<Seq<char>>::empty().push(echo@) =~= key_output(state, byte));
                }
            }
            false
        }
    }
}

/// The state after each key of `keys` in turn.
pub open spec fn run_state(state: ShellState, keys: Seq<u8>) -> ShellState
    decreases keys.len(),
{
    if keys.len() == 0 {
        state
    } else {
        next_state(run_state(state, keys.drop_last()), keys.last())
    }
}

/// What the keys of `keys` print, one after the other.
pub open spec fn run_output(state: ShellState, keys: Seq<u8>) -> Seq<Seq<char>>
    decreases keys.len(),
{
    if keys.len() == 0 {
        Seq::empty()
    } else {
        run_output(state, keys.drop_last()) + key_output(
            run_state(state, keys.drop_last()),
            keys.last(),
        )
    }
}

/// The number of keys that the shell takes from a queue in one go: all of
/// them, or those up to the `halt` command's Enter; none once it has halted.
pub open spec fn consumed(state: ShellState, queue: Seq<u8>) -> nat
    decreases queue.len(),
{
    if state.halted || queue.len() == 0 {
        0
    } else {
        1 + consumed(next_state(state, queue[0]), queue.drop_first())
    }
}

/// What the caller of `shell_loop` has to do next.
#[derive(Debug, Clone, Copy, PartialEq, Eq, Structural)]
pub enum ShellAction {
    /// The queue is empty: wait for the next interrupt, then call again.
    Wait,
    /// The shell has halted: stop the processor for good.
    Halt,
}

/// The shell takes no more keys than the queue holds.
pub proof fn law_takes_all_unless_halted(state: ShellState, queue: Seq<u8>)
    ensures
        consumed(state, queue) <= queue.len(),
        !run_state(state, queue.take(consumed(state, queue) as int)).halted ==> consumed(
            state,
            queue,
        ) == queue.len(),
    decreases queue.len(),
{
    if state.halted || queue.len() == 0 {
        assert(queue.take(0) =~= Seq::<u8>::empty());
    } else {
        let next = next_state(state, queue[0]);
        let rest = queue.drop_first();
        law_takes_all_unless_halted(next, rest);
        let n = consumed(next, rest) as int;
        lemma_run_front(state, queue.take(n + 1));
        assert(queue.take(n + 1).drop_first() =~= rest.take(n));
    }
}

/// Running a non-empty series of keys is running the rest from the state
/// after the first key.
pub proof fn lemma_run_front(state: ShellState, keys: Seq<u8>)
    requires
        keys.len() > 0,
    ensures
        run_state(state, keys) == run_state(next_state(state, keys[0]), keys.drop_first()),
        run_output(state, keys) == key_output(state, keys[0]) + run_output(
            next_state(state, keys[0]),
            keys.drop_first(),
        ),
    decreases keys.len(),
{
    let next = next_state(state, keys[0]);
    if keys.len() == 1 {
        let none = Seq::<u8>::empty();
        assert(keys.drop_last() =~= none);
        assert(keys.drop_first() =~= none);
        assert(run_state(state, none) == state);
        assert(run_output(state, none) =~= Seq::<Seq<char>>::empty());
        assert(run_state(next, none) == next);
        assert(run_output(next, none) =~= Seq::<Seq<char>>::empty());
        assert(keys.last() == keys[0]);
        assert(run_output(state, keys) =~= key_output(state, keys[0]) + run_output(
            next,
            keys.drop_first(),
        ));
    } else {
        lemma_run_front(state, keys.drop_last());
        assert(keys.drop_last().drop_first() =~= keys.drop_first().drop_last());
        assert(keys.drop_last()[0] == keys[0]);
        assert(keys.drop_first().last() == keys.last());
        assert(run_output(state, keys) =~= key_output(state, keys[0]) + run_output(
            next,
            keys.drop_first(),
        ));
    }
}

/// Feeds the shell the keys that are waiting in the queue, oldest first,
/// until the queue is empty or the shell has halted, and says what the caller
/// has to do next.
pub fn shell_loop<W: Writer>(shell: &mut Shell, writer: &mut W, keys: &mut RingBuffer) -> (action:
    ShellAction)
    requires
        old(shell).wf(),
        old(writer).wf(),
        old(keys).wf(),
    ensures
        final(shell).wf(),
        final(writer).wf(),
        final(keys).wf(),
        final(keys)@ == old(keys)@.skip(consumed(old(shell)@, old(keys)@) as int),
        final(shell)@ == run_state(
            old(shell)@,
            old(keys)@.take(consumed(old(shell)@, old(keys)@) as int),
        ),
        strings_written(
            *old(writer),
            run_output(old(shell)@, old(keys)@.take(consumed(old(shell)@, old(keys)@) as int)),
            *final(writer),
        ),
        action == ShellAction::Halt <==> final(shell)@.halted,
        action == ShellAction::Wait ==> final(keys)@.len() == 0,
{
    let ghost start = *writer;
    let ghost first = shell@;
    let ghost queue = keys@;
    let ghost mut n: int = 0;
    let mut action = ShellAction::Wait;
    proof {
        assert(queue.skip(0) =~= queue);
        assert(queue.take(0) =~= Seq::<u8>::empty());
    }
    loop
        invariant
            shell.wf(),
            writer.wf(),
            keys.wf(),
            start == *old(writer),
            first == old(shell)@,
            queue == old(keys)@,
            0 <= n <= queue.len(),
            keys@ == queue.skip(n),
            shell@ == run_state(first, queue.take(n)),
            strings_written(start, run_output(first, queue.take(n)), *writer),
            consumed(first, queue) == n + consumed(shell@, keys@),
        ensures
            shell.wf(),
            writer.wf(),
            keys.wf(),
            n == consumed(first, queue),
            keys@ == queue.skip(n),
            shell@ == run_state(first, queue.take(n)),
            strings_written(start, run_output(first, queue.take(n)), *writer),
            action == ShellAction::Halt <==> shell@.halted,
            action == ShellAction::Wait ==> keys@.len() == 0,
        decreases keys@.len(),
    {
        if shell.is_halted() {
            action = ShellAction::Halt;
            break;
        }
        let ghost before = shell@;
        let ghost mid = *writer;
        match get_key(keys) {
            None => {
                action = ShellAction::Wait;
                break;
            },
            Some(byte) => {
                let _ = shell.handle_key(writer, byte);
                proof {
                    assert(byte == queue[n]);
                    assert(queue.take(n + 1).drop_last() =~= queue.take(n));
                    assert(queue.take(n + 1).last() == byte);
                    assert(queue.skip(n).drop_first() =~= queue.skip(n + 1));
                    lemma_written_join(
                        start,
                        run_output(first, queue.take(n)),
                        mid,
                        key_output(before, byte),
                        *writer,
                    );
                    n = n + 1;
                }
            },
        }
    }
    action
}

/// Erasing on an empty line changes nothing and prints nothing: the line,
/// the history and, for want of output, the cursor stay where they are.
pub proof fn law_erase_on_empty_line(state: ShellState, byte: u8)
    requires
        is_erase(byte),
        state.line.len() == 0,
    ensures
        next_state(state, byte) == state,
        key_output(state, byte) == Seq::<Seq<char>>::empty(),
{
}

/// A sink that nothing was written to is in the state it was in.
pub proof fn law_no_output_no_change<W: Writer>(pre: W, post: W)
    requires
        strings_written(pre, Seq::empty(), post),
    ensures
        post == pre,
{
}

/// A line that is a command name, with or without white space around it,
/// prints that command's text; a line of white space prints nothing; every
/// other line prints the one line for unknown commands.
pub proof fn law_dispatch(line: Seq<u8>, history: Seq<Seq<u8>>)
    ensures
        trimmed(line) == "help".spec_bytes() ==> command_output(line, history) == help_text(),
        trimmed(line) == "hello".spec_bytes() ==> command_output(line, history) == hello_text(),
        trimmed(line) == "tri-ratio".spec_bytes() ==> command_output(line, history)
            == ratio_text(),
        trimmed(line) == "halt".spec_bytes() ==> command_output(line, history) == halt_text(),
        trimmed(line) == "history".spec_bytes() ==> command_output(line, history) == history_text(
            history,
        ),
        trimmed(line).len() == 0 ==> command_output(line, history) == Seq::<Seq<char>>::empty(),
        trimmed(line).len() > 0 && trimmed(line) != "help".spec_bytes() && trimmed(line)
            != "hello".spec_bytes() && trimmed(line) != "tri-ratio".spec_bytes() && trimmed(line)
            != "halt".spec_bytes() && trimmed(line) != "history".spec_bytes() ==> command_output(
            line,
            history,
        ) == unknown_text(),
{
    lemma_command_names();
    let name = trimmed(line);
    if name == "hello".spec_bytes() {
        assert(name.len() == 5);
    }
    if name == "tri-ratio".spec_bytes() {
        assert(name.len() == 9);
    }
    if name == "halt".spec_bytes() {
        assert(name[1] == 0x61);
    }
    if name == "history".spec_bytes() {
        assert(name.len() == 7);
    }
    if name.len() == 0 {
        assert("help".spec_bytes().len() == 4);
    }
}

} // verus!
