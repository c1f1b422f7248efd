use vstd::prelude::*;

use crate::slot::Slot;
use crate::slot::full_alphabet;

verus! {

/// Every word and every feedback line resolves to exactly this many signals.
pub const WORD_LEN: usize = 5;

/// One per-position feedback signal of a round.
///
/// `Exact` confirms the letter at its position (green), `Present` says the
/// letter occurs elsewhere in the word (yellow), `Absent` excludes the
/// letter everywhere (grey).
#[derive(Clone, Copy, Debug, PartialEq, Eq, Structural)]
pub enum Signal {
    Exact(char),
    Present(char),
    Absent(char),
}

/// Why a feedback line was rejected: an unrecognized character, or a signal
/// count other than `WORD_LEN`.
#[derive(Clone, Copy, Debug, PartialEq, Eq, Structural)]
pub enum WordleParseError {
    InvalidToken(char),
    InvalidLength(usize),
}

/// The lowercase form of an ASCII uppercase letter; any other character is
/// left unchanged.
pub open spec fn to_lower(c: char) -> char {
    if 'A' <= c && c <= 'Z' {
        ((c as u8) + 32) as char
    } else {
        c
    }
}

/// The characters a feedback line may hold: the `!` modifier, the bare `?`
/// marker, and the ASCII letters.
pub open spec fn is_token_char(c: char) -> bool {
    c == '!' || c == '?' || ('a' <= c && c <= 'z') || ('A' <= c && c <= 'Z')
}

/// Scans a feedback line, left to right, into signals.
///
/// `!` marks the next character, whatever it is, as `Absent` — normalized
/// to lowercase, so the letter after `!` is case-insensitive — and itself
/// yields no signal; a bare `?` yields an `Absent` with a blank placeholder
/// character; a lowercase letter yields `Present`; an uppercase letter
/// yields `Exact`, normalized to lowercase; any other unmarked character
/// stops the scan with `InvalidToken`. A trailing `!` with nothing after it
/// yields no signal.
pub open spec fn scan_signals(s: Seq<char>, block: bool) -> Result<Seq<Signal>, WordleParseError>
    decreases s.len(),
{
    if s.len() == 0 {
        Ok(Seq::empty())
    } else {
        let c = s[0];
        if c == '!' {
            scan_signals(s.drop_first(), true)
        } else {
            let sig = if block {
                Some(Signal::Absent(to_lower(c)))
            } else if c == '?' {
                Some(Signal::Absent(' '))
            } else if 'a' <= c && c <= 'z' {
                Some(Signal::Present(c))
            } else if 'A' <= c && c <= 'Z' {
                Some(Signal::Exact(to_lower(c)))
            } else {
                None
            };
            match sig {
                Some(sig) => match scan_signals(s.drop_first(), false) {
                    Ok(rest) => Ok(seq![sig] + rest),
                    Err(e) => Err(e),
                },
                None => Err(WordleParseError::InvalidToken(c)),
            }
        }
    }
}

/// The parse of one feedback line: its scanned signals if they number
/// exactly `WORD_LEN`, otherwise the error of the round.
pub open spec fn line_signals(s: Seq<char>) -> Result<Seq<Signal>, WordleParseError> {
    match scan_signals(s, false) {
        Ok(sigs) => if sigs.len() == WORD_LEN as nat {
            Ok(sigs)
        } else {
            Err(WordleParseError::InvalidLength(sigs.len() as usize))
        },
        Err(e) => Err(e),
    }
}

fn lower_char(c: char) -> (r: char)
    requires
        'A' <= c && c <= 'Z',
    ensures
        r == to_lower(c),
{
    ((c as u8) + 32) as char
}

/// Appending one scanned signal keeps the scan of the whole line in step
/// with the signals gathered so far.
proof fn lemma_scan_step(s: Seq<char>, i: int, block: bool, sig: Signal, out0: Seq<Signal>)
    requires
        0 <= i < s.len(),
        scan_signals(s.skip(i), block) == (match scan_signals(s.skip(i + 1), false) {
            Ok(rest) => Ok::<Seq<Signal>, WordleParseError>(seq![sig] + rest),
            Err(e) => Err::<Seq<Signal>, WordleParseError>(e),
        }),
        scan_signals(s, false) == (match scan_signals(s.skip(i), block) {
            Ok(rest) => Ok::<Seq<Signal>, WordleParseError>(out0 + rest),
            Err(e) => Err::<Seq<Signal>, WordleParseError>(e),
        }),
    ensures
        scan_signals(s, false) == (match scan_signals(s.skip(i + 1), false) {
            Ok(rest) => Ok::<Seq<Signal>, WordleParseError>(out0.push(sig) + rest),
            Err(e) => Err::<Seq<Signal>, WordleParseError>(e),
        }),
{
    match scan_signals(s.skip(i + 1), false) {
        Ok(rest) => {
            assert(out0 + (seq![sig] + rest) =~= out0.push(sig) + rest);
        },
        Err(e) => {},
    }
}

/// A line made only of recognized tokens always scans.
pub proof fn lemma_scan_recognized(s: Seq<char>, block: bool)
    requires
        forall|i: int| 0 <= i < s.len() ==> is_token_char(#[trigger] s[i]),
    ensures
        scan_signals(s, block) is Ok,
    decreases s.len(),
{
    if s.len() > 0 {
        assert(is_token_char(s[0]));
        assert forall|i: int| 0 <= i < s.drop_first().len() implies is_token_char(
            #[trigger] s.drop_first()[i],
        ) by {
            assert(s.drop_first()[i] == s[i + 1]);
        }
        lemma_scan_recognized(s.drop_first(), true);
        lemma_scan_recognized(s.drop_first(), false);
    }
}

/// A scan fails only with `InvalidToken`, and the character it carries is
/// an unrecognized character of the line itself.
pub proof fn lemma_scan_error(s: Seq<char>, block: bool)
    requires
        scan_signals(s, block) is Err,
    ensures
        scan_signals(s, block) matches Err(WordleParseError::InvalidToken(c)) && s.contains(c)
            && !is_token_char(c),
    decreases s.len(),
{
    let c0 = s[0];
    if c0 == '!' {
        lemma_scan_error(s.drop_first(), true);
        let c = choose|c: char|
            scan_signals(s, block) == Err::<Seq<Signal>, WordleParseError>(
                WordleParseError::InvalidToken(c),
            );
        let j = choose|j: int| 0 <= j < s.drop_first().len() && s.drop_first()[j] == c;
        assert(s[j + 1] == c);
    } else if block || c0 == '?' || ('a' <= c0 && c0 <= 'z') || ('A' <= c0 && c0 <= 'Z') {
        if scan_signals(s.drop_first(), false) is Err {
            lemma_scan_error(s.drop_first(), false);
            let c = choose|c: char|
                scan_signals(s, block) == Err::<Seq<Signal>, WordleParseError>(
                    WordleParseError::InvalidToken(c),
                );
            let j = choose|j: int| 0 <= j < s.drop_first().len() && s.drop_first()[j] == c;
            assert(s[j + 1] == c);
        }
    } else {
        assert(s.contains(c0)) by {
            assert(s[0] == c0);
        }
    }
}

/// A line whose tokens all scan but whose signal count is not `WORD_LEN`
/// is rejected with `InvalidLength` carrying that count, and a line whose
/// scan fails is rejected with that scan's `InvalidToken` error.
pub proof fn lemma_line_classification(s: Seq<char>)
    ensures
        line_signals(s) is Ok <==> (scan_signals(s, false) matches Ok(sigs) && sigs.len()
            == WORD_LEN as nat),
        match scan_signals(s, false) {
            Ok(sigs) => sigs.len() != WORD_LEN as nat ==> line_signals(s) == Err::<
                Seq<Signal>,
                WordleParseError,
            >(WordleParseError::InvalidLength(sigs.len() as usize)),
            Err(e) => line_signals(s) == Err::<Seq<Signal>, WordleParseError>(e),
        },
{
}

impl Wordle {
    /// Parses one feedback line into exactly `WORD_LEN` signals, or reports
    /// the first unrecognized character, or the wrong signal count.
    pub fn parse_line(s: &str) -> (r: Result<Vec<Signal>, WordleParseError>)
        ensures
            match line_signals(s@) {
                Ok(sigs) => r matches Ok(v) && v@ == sigs,
                Err(e) => r == Err::<Vec<Signal>, WordleParseError>(e),
            },
    {
        let n = s.unicode_len();
        let mut out: Vec<Signal> = Vec::new();
        let mut block = false;
        let mut i: usize = 0;
        proof {
            assert(s@.skip(0) =~= s@);
            match scan_signals(s@, false) {
                Ok(rest) => {
                    assert(Seq::<Signal>::empty() + rest =~= rest);
                },
                Err(e) => {},
            }
        }
        while i < n
            invariant
                n == s@.len(),
                i <= n,
                scan_signals(s@, false) == (match scan_signals(s@.skip(i as int), block) {
                    Ok(rest) => Ok::<Seq<Signal>, WordleParseError>(out@ + rest),
                    Err(e) => Err::<Seq<Signal>, WordleParseError>(e),
                }),
            decreases n - i,
        {
            let ghost pos = i as int;
            let ghost out0 = out@;
            let ghost block0 = block;
            let c = s.get_char(i);
            proof {
                assert(s@.skip(pos)[0] == s@[pos]);
                assert(s@.skip(pos).drop_first() =~= s@.skip(pos + 1));
                assert(s@.skip(pos).len() == n - pos);
            }
            if c == '!' {
                block = true;
                proof {
                    assert(scan_signals(s@.skip(pos), block0) == scan_signals(
                        s@.skip(pos + 1),
                        true,
                    ));
                }
            } else {
                let sig: Signal;
                if block {
                    if c >= 'A' && c <= 'Z' {
                        sig = Signal::Absent(lower_char(c));
                    } else {
                        sig = Signal::Absent(c);
                    }
                    block = false;
                } else if c == '?' {
                    sig = Signal::Absent(' ');
                } else if c >= 'a' && c <= 'z' {
                    sig = Signal::Present(c);
                } else if c >= 'A' && c <= 'Z' {
                    sig = Signal::Exact(lower_char(c));
                } else {
                    proof {
                        assert(scan_signals(s@.skip(pos), block0) == Err::<
                            Seq<Signal>,
                            WordleParseError,
                        >(WordleParseError::InvalidToken(c)));
                    }
                    return Err(WordleParseError::InvalidToken(c));
                }
                out.push(sig);
                proof {
                    assert(scan_signals(s@.skip(pos), block0) == (match scan_signals(
                        s@.skip(pos + 1),
                        false,
                    ) {
                        Ok(rest) => Ok::<Seq<Signal>, WordleParseError>(seq![sig] + rest),
                        Err(e) => Err::<Seq<Signal>, WordleParseError>(e),
                    }));
                    lemma_scan_step(s@, pos, block0, sig, out0);
                }
            }
            i += 1;
        }
        proof {
            assert(s@.skip(n as int) =~= Seq::<char>::empty());
            assert(scan_signals(Seq::<char>::empty(), block) == Ok::<
                Seq<Signal>,
                WordleParseError,
            >(Seq::empty()));
            assert(out@ + Seq::<Signal>::empty() =~= out@);
        }
        if out.len() == WORD_LEN {
            Ok(out)
        } else {
            Err(WordleParseError::InvalidLength(out.len()))
        }
    }
}

/// The word-guessing filter: five per-position slots, the set of characters
/// known to be required somewhere in the word, and the candidate words that
/// are still possible.
pub struct Wordle {
    wordlist: Vec<String>,
    slots: [Slot; 5],
    required: Vec<char>,
}

/// The permitted set of slot `i` after the signal at position `pos` of a
/// round is applied: an `Exact` at `i` restricts the slot to its letter, a
/// `Present` at `i` removes its letter from the slot alone, and an `Absent`
/// removes its letter from every slot.
pub open spec fn signal_step(s: Set<char>, sig: Signal, pos: int, i: int) -> Set<char> {
    match sig {
        Signal::Exact(c) => if pos == i {
            Set::empty().insert(c)
        } else {
            s
        },
        Signal::Present(c) => if pos == i {
            s.remove(c)
        } else {
            s
        },
        Signal::Absent(c) => s.remove(c),
    }
}

/// The permitted set of slot `i` after the signals from position `pos` on
/// are applied in order.
pub open spec fn slot_after_from(s: Set<char>, signals: Seq<Signal>, pos: int, i: int) -> Set<char>
    decreases signals.len(),
{
    if signals.len() == 0 {
        s
    } else {
        slot_after_from(signal_step(s, signals[0], pos, i), signals.drop_first(), pos + 1, i)
    }
}

/// The permitted set of slot `i` after a whole round of signals.
pub open spec fn slot_after(s: Set<char>, signals: Seq<Signal>, i: int) -> Set<char> {
    slot_after_from(s, signals, 0, i)
}

/// The characters that a round's `Exact` and `Present` signals require to
/// occur somewhere in the word.
pub open spec fn required_chars(signals: Seq<Signal>) -> Set<char>
    decreases signals.len(),
{
    if signals.len() == 0 {
        Set::empty()
    } else {
        let rest = required_chars(signals.drop_first());
        match signals[0] {
            Signal::Exact(c) => rest.insert(c),
            Signal::Present(c) => rest.insert(c),
            Signal::Absent(_) => rest,
        }
    }
}

/// Whether a word stays a candidate: it has the right length, each of its
/// characters is permitted by the slot at its position, and every required
/// character occurs somewhere in it.
pub open spec fn passes(w: Seq<char>, slots: Seq<Set<char>>, required: Set<char>) -> bool {
    &&& w.len() == WORD_LEN as nat
    &&& (forall|i: int| 0 <= i < w.len() ==> #[trigger] slots[i].contains(w[i]))
    &&& (forall|c: char| required.contains(c) ==> w.contains(c))
}

/// The words of `l` that stay candidates under the given slots and
/// required characters, in their original order.
pub open spec fn filtered_words(l: Seq<String>, slots: Seq<Set<char>>, required: Set<char>) -> Seq<
    String,
> {
    l.filter(|w: String| passes(w@, slots, required))
}

/// The words of `l` whose length is exactly `WORD_LEN`, in their original
/// order.
pub open spec fn sized_words(l: Seq<String>) -> Seq<String> {
    l.filter(|w: String| w@.len() == WORD_LEN as nat)
}

/// One step of filtering: the filter of a prefix one element longer keeps
/// or drops exactly that element.
proof fn lemma_filtered_step(l: Seq<String>, slots: Seq<Set<char>>, required: Set<char>, i: int)
    requires
        0 <= i < l.len(),
    ensures
        passes(l[i]@, slots, required) ==> filtered_words(l.take(i + 1), slots, required)
            == filtered_words(l.take(i), slots, required).push(l[i]),
        !passes(l[i]@, slots, required) ==> filtered_words(l.take(i + 1), slots, required)
            == filtered_words(l.take(i), slots, required),
{
    reveal(Seq::filter);
    assert(l.take(i + 1).drop_last() =~= l.take(i));
    assert(l.take(i + 1).last() == l[i]);
}

/// One step of the length filter, as above.
proof fn lemma_sized_step(l: Seq<String>, i: int)
    requires
        0 <= i < l.len(),
    ensures
        l[i]@.len() == WORD_LEN as nat ==> sized_words(l.take(i + 1)) == sized_words(
            l.take(i),
        ).push(l[i]),
        l[i]@.len() != WORD_LEN as nat ==> sized_words(l.take(i + 1)) == sized_words(l.take(i)),
{
    reveal(Seq::filter);
    assert(l.take(i + 1).drop_last() =~= l.take(i));
    assert(l.take(i + 1).last() == l[i]);
}

/// A word is retained by the filter exactly when it was a candidate before
/// and passes every slot and the required-character test.
pub proof fn lemma_retained_iff(
    l: Seq<String>,
    slots: Seq<Set<char>>,
    required: Set<char>,
    w: String,
)
    ensures
        filtered_words(l, slots, required).contains(w) <==> l.contains(w) && passes(
            w@,
            slots,
            required,
        ),
    decreases l.len(),
{
    broadcast use vstd::seq_lib::lemma_seq_contains_after_push;
    broadcast use vstd::seq_lib::group_filter_ensures;

    reveal(Seq::filter);
    if l.len() == 0 {
    } else {
        lemma_retained_iff(l.drop_last(), slots, required, w);
        assert(l.drop_last().push(l.last()) =~= l);
    }
}

/// Consuming the signal at `pos` advances the per-slot application by one
/// position.
proof fn lemma_slot_step(pre: Set<char>, post: Set<char>, sigs: Seq<Signal>, pos: int, i: int)
    requires
        0 <= pos < sigs.len(),
        post == signal_step(pre, sigs[pos], pos, i),
    ensures
        slot_after_from(pre, sigs.skip(pos), pos, i) == slot_after_from(
            post,
            sigs.skip(pos + 1),
            pos + 1,
            i,
        ),
{
    let rem = sigs.skip(pos);
    assert(rem[0] == sigs[pos]);
    assert(rem.drop_first() =~= sigs.skip(pos + 1));
}

/// Consuming the signal at `pos` advances the required-character
/// accumulation by one position.
proof fn lemma_required_step(sigs: Seq<Signal>, pos: int)
    requires
        0 <= pos < sigs.len(),
    ensures
        required_chars(sigs.skip(pos)) == (match sigs[pos] {
            Signal::Exact(c) => required_chars(sigs.skip(pos + 1)).insert(c),
            Signal::Present(c) => required_chars(sigs.skip(pos + 1)).insert(c),
            Signal::Absent(_) => required_chars(sigs.skip(pos + 1)),
        }),
{
    let rem = sigs.skip(pos);
    assert(rem[0] == sigs[pos]);
    assert(rem.drop_first() =~= sigs.skip(pos + 1));
}

fn vec_contains_char(v: &Vec<char>, c: char) -> (r: bool)
    ensures
        r == v@.contains(c),
{
    let n = v.len();
    let mut i: usize = 0;
    while i < n
        invariant
            n == v@.len(),
            i <= n,
            forall|j: int| 0 <= j < i ==> v@[j] != c,
        decreases n - i,
    {
        if v[i] == c {
            return true;
        }
        i += 1;
    }
    false
}

fn str_contains_char(w: &str, c: char) -> (r: bool)
    ensures
        r == w@.contains(c),
{
    let n = w.unicode_len();
    let mut i: usize = 0;
    while i < n
        invariant
            n == w@.len(),
            i <= n,
            forall|j: int| 0 <= j < i ==> w@[j] != c,
        decreases n - i,
    {
        if w.get_char(i) == c {
            proof {
                assert(w@.contains(c));
            }
            return true;
        }
        i += 1;
    }
    false
}

/// Whether `w` stays a candidate under the given slots and required
/// characters.
#[verifier::loop_isolation(false)]
fn word_check(w: &String, slots: &[Slot; 5], required: &Vec<char>) -> (r: bool)
    ensures
        r == passes(w@, slots@.map_values(|sl: Slot| sl@), required@.to_set()),
{
    let ghost sset = slots@.map_values(|sl: Slot| sl@);
    let ghost rset = required@.to_set();
    if w.as_str().unicode_len() != WORD_LEN {
        return false;
    }
    let mut i: usize = 0;
    while i < WORD_LEN
        invariant
            i <= WORD_LEN,
            forall|j: int| 0 <= j < i ==> #[trigger] sset[j].contains(w@[j]),
        decreases WORD_LEN - i,
    {
        let ch = w.as_str().get_char(i);
        if !slots[i].contains(&ch) {
            proof {
                assert(!sset[i as int].contains(w@[i as int]));
            }
            return false;
        }
        i += 1;
    }
    let m = required.len();
    let mut k: usize = 0;
    while k < m
        invariant
            k <= m,
            m == required@.len(),
            forall|j: int| 0 <= j < k ==> w@.contains(#[trigger] required@[j]),
        decreases m - k,
    {
        if !str_contains_char(w.as_str(), required[k]) {
            proof {
                assert(rset.contains(required@[k as int]));
            }
            return false;
        }
        k += 1;
    }
    proof {
        assert forall|c: char| rset.contains(c) implies w@.contains(c) by {
            let j = choose|j: int| 0 <= j < required@.len() && required@[j] == c;
            assert(w@.contains(required@[j]));
        }
    }
    true
}

impl Wordle {
    /// The candidate words still possible, in dictionary order.
    pub closed spec fn candidates(self) -> Seq<String> {
        self.wordlist@
    }

    /// The permitted character set of each of the five slots.
    pub closed spec fn slot_sets(self) -> Seq<Set<char>> {
        self.slots@.map_values(|sl: Slot| sl@)
    }

    /// The characters known to be required somewhere in the word.
    pub closed spec fn required_set(self) -> Set<char> {
        self.required@.to_set()
    }

    /// Builds a filter from a dictionary: the words of length `WORD_LEN`
    /// are the initial candidates, every slot starts unconstrained, and no
    /// character is required yet.
    #[verifier::loop_isolation(false)]
    pub fn new(dictionary: Vec<String>) -> (w: Wordle)
        ensures
            w.candidates() == sized_words(dictionary@),
            w.slot_sets().len() == WORD_LEN as nat,
            forall|i: int| 0 <= i < WORD_LEN ==> w.slot_sets()[i] == full_alphabet(),
            w.required_set() == Set::<char>::empty(),
    {
        let mut kept: Vec<String> = Vec::new();
        let n = dictionary.len();
        let mut i: usize = 0;
        proof {
            assert(dictionary@.take(0) =~= Seq::<String>::empty());
            reveal(Seq::filter);
        }
        while i < n
            invariant
                i <= n,
                kept@ == sized_words(dictionary@.take(i as int)),
            decreases n - i,
        {
            proof {
                lemma_sized_step(dictionary@, i as int);
            }
            let w = &dictionary[i];
            if w.as_str().unicode_len() == WORD_LEN {
                let wc = w.clone();
                proof {
                    assert(wc == dictionary@[i as int]);
                }
                kept.push(wc);
            }
            i += 1;
        }
        proof {
            assert(dictionary@.take(n as int) =~= dictionary@);
        }
        let slots = [Slot::new(), Slot::new(), Slot::new(), Slot::new(), Slot::new()];
        let required: Vec<char> = Vec::new();
        let w = Wordle { wordlist: kept, slots, required };
        proof {
            assert(w.required_set() =~= Set::<char>::empty());
            assert forall|i: int| 0 <= i < WORD_LEN implies w.slot_sets()[i] == full_alphabet() by {
                assert(w.slots@[i]@ == full_alphabet());
            }
        }
        w
    }

    /// The number of candidate words still possible.
    pub fn len(&self) -> (n: usize)
        ensures
            n == self.candidates().len(),
    {
        self.wordlist.len()
    }

    /// A snapshot of the candidate words; later rounds do not change it.
    pub fn words(&self) -> (r: Vec<String>)
        ensures
            r@ == self.candidates(),
    {
        let r = self.wordlist.clone();
        proof {
            assert forall|i: int| 0 <= i < r@.len() implies r@[i] == self.wordlist@[i] by {
                assert(cloned::<String>(self.wordlist@[i], r@[i]));
            }
            assert(r@ =~= self.wordlist@);
        }
        r
    }

    /// Marks `c` as required somewhere in the word; marking it again
    /// changes nothing.
    fn require(&mut self, c: char)
        ensures
            final(self).required_set() == old(self).required_set().insert(c),
            final(self).slots == old(self).slots,
            final(self).wordlist == old(self).wordlist,
    {
        if !vec_contains_char(&self.required, c) {
            let ghost before = self.required@;
            self.required.push(c);
            proof {
                broadcast use vstd::seq_lib::lemma_seq_contains_after_push;

                assert(self.required@.to_set() =~= before.to_set().insert(c));
            }
        } else {
            proof {
                assert(self.required@.to_set() =~= self.required@.to_set().insert(c));
            }
        }
    }

    /// Applies one feedback line.
    ///
    /// If the line does not parse, the error is returned and nothing
    /// changes. Otherwise each signal narrows the slots in order — an
    /// `Exact` restricts its slot to its letter, a `Present` removes its
    /// letter from its own slot, an `Absent` removes its letter from every
    /// slot, with no guard for characters already required — the `Exact`
    /// and `Present` letters join the required set, and the candidate list
    /// is refiltered in place, so it never grows.
    #[verifier::loop_isolation(false)]
    pub fn update(&mut self, s: &str) -> (r: Result<(), WordleParseError>)
        ensures
            match line_signals(s@) {
                Ok(signals) => {
                    &&& r is Ok
                    &&& forall|i: int|
                        0 <= i < WORD_LEN ==> final(self).slot_sets()[i] == slot_after(
                            old(self).slot_sets()[i],
                            signals,
                            i,
                        )
                    &&& final(self).required_set() == old(self).required_set().union(
                        required_chars(signals),
                    )
                    &&& final(self).candidates() == filtered_words(
                        old(self).candidates(),
                        final(self).slot_sets(),
                        final(self).required_set(),
                    )
                },
                Err(e) => r == Err::<(), WordleParseError>(e) && *final(self) == *old(self),
            },
            final(self).candidates().len() <= old(self).candidates().len(),
            old(self).required_set().subset_of(final(self).required_set()),
            final(self).slot_sets().len() == WORD_LEN as nat,
    {
        let parsed = Self::parse_line(s);
        let signals = match parsed {
            Ok(v) => v,
            Err(e) => {
                return Err(e);
            },
        };
        let ghost sigs = signals@;
        let ghost orig_slots = self.slot_sets();
        let ghost orig_req = self.required_set();
        let mut idx: usize = 0;
        proof {
            assert(sigs.skip(0) =~= sigs);
        }
        while idx < WORD_LEN
            invariant
                idx <= WORD_LEN,
                signals@ == sigs,
                sigs.len() == WORD_LEN as nat,
                self.wordlist == old(self).wordlist,
                forall|i: int|
                    0 <= i < WORD_LEN ==> slot_after(orig_slots[i], sigs, i) == slot_after_from(
                        #[trigger] self.slot_sets()[i],
                        sigs.skip(idx as int),
                        idx as int,
                        i,
                    ),
                orig_req.union(required_chars(sigs)) == self.required_set().union(
                    required_chars(sigs.skip(idx as int)),
                ),
            decreases WORD_LEN - idx,
        {
            let ghost pos = idx as int;
            let ghost pre_slots = self.slot_sets();
            let ghost pre_req = self.required_set();
            let sig = signals[idx];
            match sig {
                Signal::Exact(c) => {
                    let mut sl = self.slots[idx].duplicate();
                    sl.restrict(c);
                    self.slots[idx] = sl;
                    self.require(c);
                    proof {
                        assert forall|i: int| 0 <= i < WORD_LEN implies #[trigger] self.slot_sets()[i]
                            == signal_step(pre_slots[i], sigs[pos], pos, i) by {}
                    }
                },
                Signal::Present(c) => {
                    let mut sl = self.slots[idx].duplicate();
                    sl.remove(&c);
                    self.slots[idx] = sl;
                    self.require(c);
                    proof {
                        assert forall|i: int| 0 <= i < WORD_LEN implies #[trigger] self.slot_sets()[i]
                            == signal_step(pre_slots[i], sigs[pos], pos, i) by {}
                    }
                },
                Signal::Absent(c) => {
                    let ghost pre_rvec = self.required@;
                    let mut j: usize = 0;
                    while j < WORD_LEN
                        invariant
                            j <= WORD_LEN,
                            self.wordlist == old(self).wordlist,
                            self.required@ == pre_rvec,
                            forall|i: int|
                                0 <= i < j ==> #[trigger] self.slot_sets()[i] == pre_slots[i].remove(
                                    c,
                                ),
                            forall|i: int|
                                j <= i < WORD_LEN ==> #[trigger] self.slot_sets()[i] == pre_slots[i],
                        decreases WORD_LEN - j,
                    {
                        let ghost before = self.slot_sets();
                        let ghost arr0 = self.slots@;
                        let mut sl = self.slots[j].duplicate();
                        sl.remove(&c);
                        self.slots[j] = sl;
                        proof {
                            assert forall|i: int| 0 <= i < WORD_LEN implies #[trigger] self.slot_sets()[i]
                                == (if i == j as int {
                                before[i].remove(c)
                            } else {
                                before[i]
                            }) by {
                                if i != j as int {
                                    assert(self.slots@[i] == arr0[i]);
                                }
                            }
                        }
                        j += 1;
                    }
                    proof {
                        assert forall|i: int| 0 <= i < WORD_LEN implies #[trigger] self.slot_sets()[i]
                            == signal_step(pre_slots[i], sigs[pos], pos, i) by {}
                    }
                },
            }
            proof {
                assert forall|i: int| 0 <= i < WORD_LEN implies slot_after(orig_slots[i], sigs, i)
                    == slot_after_from(
                    #[trigger] self.slot_sets()[i],
                    sigs.skip(pos + 1),
                    pos + 1,
                    i,
                ) by {
                    lemma_slot_step(pre_slots[i], self.slot_sets()[i], sigs, pos, i);
                }
                lemma_required_step(sigs, pos);
                assert(orig_req.union(required_chars(sigs)) == self.required_set().union(
                    required_chars(sigs.skip(pos + 1)),
                )) by {
                    match sigs[pos] {
                        Signal::Exact(c) => {
                            assert(pre_req.union(
                                required_chars(sigs.skip(pos + 1)).insert(c),
                            ) =~= pre_req.insert(c).union(required_chars(sigs.skip(pos + 1))));
                        },
                        Signal::Present(c) => {
                            assert(pre_req.union(
                                required_chars(sigs.skip(pos + 1)).insert(c),
                            ) =~= pre_req.insert(c).union(required_chars(sigs.skip(pos + 1))));
                        },
                        Signal::Absent(_) => {},
                    }
                }
            }
            idx += 1;
        }
        proof {
            assert(sigs.skip(WORD_LEN as int) =~= Seq::<Signal>::empty());
        }
        let ghost fslots = self.slot_sets();
        let ghost freq = self.required_set();
        let mut kept: Vec<String> = Vec::new();
        let wn = self.wordlist.len();
        let mut t: usize = 0;
        proof {
            assert(self.wordlist@.take(0) =~= Seq::<String>::empty());
            reveal(Seq::filter);
        }
        while t < wn
            invariant
                t <= wn,
                wn == self.wordlist@.len(),
                self.wordlist == old(self).wordlist,
                self.slot_sets() == fslots,
                self.required_set() == freq,
                kept@ == filtered_words(self.wordlist@.take(t as int), fslots, freq),
            decreases wn - t,
        {
            proof {
                lemma_filtered_step(self.wordlist@, fslots, freq, t as int);
            }
            let w = &self.wordlist[t];
            if word_check(w, &self.slots, &self.required) {
                let wc = w.clone();
                proof {
                    assert(wc == self.wordlist@[t as int]);
                }
                kept.push(wc);
            }
            t += 1;
        }
        proof {
            assert(self.wordlist@.take(wn as int) =~= self.wordlist@);
            broadcast use vstd::seq_lib::group_filter_ensures;

            assert(required_chars(Seq::<Signal>::empty()) == Set::<char>::empty());
            assert(freq.union(Set::<char>::empty()) =~= freq);
            assert(orig_req.subset_of(orig_req.union(required_chars(sigs))));
        }
        self.wordlist = kept;
        Ok(())
    }
}

} // verus!
