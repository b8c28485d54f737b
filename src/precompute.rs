//! The table of precomputed second guesses: lookup, a fixed-width text form,
//! and the offline pipeline that fills it.
use vstd::prelude::*;
use vstd::arithmetic::div_mod::{
    lemma_div_multiples_vanish, lemma_fundamental_div_mod, lemma_mod_multiples_basic,
};
use crate::feedback::{CharResult, GuessResult, WORD_LEN};

verus! {

/// One record as plain values: opening guess, its feedback, best next guess.
pub type RecordView = (Seq<char>, Seq<CharResult>, Seq<char>);

/// Number of characters of one record in the text form.
pub const LINE_LEN: usize = 18;

/// Whether the record's words and feedback all have `WORD_LEN` entries.
pub open spec fn record_ok(r: RecordView) -> bool {
    r.0.len() == WORD_LEN && r.1.len() == WORD_LEN && r.2.len() == WORD_LEN
}

/// Whether every record of a table is well formed.
pub open spec fn table_ok(recs: Seq<RecordView>) -> bool {
    forall|k: int| 0 <= k < recs.len() ==> record_ok(#[trigger] recs[k])
}

/// The best guess stored for opening guess `g` and feedback `fb`; a later
/// record for the same key replaces an earlier one.
pub open spec fn table_lookup(recs: Seq<RecordView>, g: Seq<char>, fb: Seq<CharResult>) -> Option<
    Seq<char>,
>
    decreases recs.len(),
{
    if recs.len() == 0 {
        None
    } else if recs.last().0 == g && recs.last().1 == fb {
        Some(recs.last().2)
    } else {
        table_lookup(recs.drop_last(), g, fb)
    }
}

/// The character that stands for a mark in the text form.
pub open spec fn mark_char(m: CharResult) -> char {
    match m {
        CharResult::Unknown => 'u',
        CharResult::Incorrect => 'a',
        CharResult::CorrectChar => 'p',
        CharResult::Correct => 'c',
    }
}

/// Whether `c` stands for a mark.
pub open spec fn is_mark_char(c: char) -> bool {
    c == 'u' || c == 'a' || c == 'p' || c == 'c'
}

/// The mark that `c` stands for.
pub open spec fn mark_of(c: char) -> CharResult {
    if c == 'u' {
        CharResult::Unknown
    } else if c == 'a' {
        CharResult::Incorrect
    } else if c == 'p' {
        CharResult::CorrectChar
    } else {
        CharResult::Correct
    }
}

/// One record as text: guess, space, marks, space, best guess, newline.
pub open spec fn record_text(r: RecordView) -> Seq<char> {
    r.0 + seq![' '] + r.1.map_values(|m: CharResult| mark_char(m)) + seq![' '] + r.2 + seq!['\n']
}

/// A whole table as text, one line per record in order.
pub open spec fn table_text(recs: Seq<RecordView>) -> Seq<char>
    decreases recs.len(),
{
    if recs.len() == 0 {
        Seq::empty()
    } else {
        table_text(recs.drop_last()) + record_text(recs.last())
    }
}

/// Line `k` of a text of fixed-width lines.
pub open spec fn line_of(t: Seq<char>, k: int) -> Seq<char> {
    t.subrange(LINE_LEN * k, LINE_LEN * k + LINE_LEN)
}

/// Whether a line has its separators and marks where the text form puts them.
pub open spec fn line_ok(l: Seq<char>) -> bool {
    &&& l[5] == ' '
    &&& l[11] == ' '
    &&& l[17] == '\n'
    &&& forall|i: int| 0 <= i < WORD_LEN ==> is_mark_char(#[trigger] l[6 + i])
}

/// Whether `t` is the text form of some table.
pub open spec fn text_ok(t: Seq<char>) -> bool {
    &&& t.len() % (LINE_LEN as nat) == 0
    &&& forall|k: int| 0 <= k < t.len() / (LINE_LEN as nat) ==> line_ok(#[trigger] line_of(t, k))
}

/// The record that a line stands for.
pub open spec fn decode_line(l: Seq<char>) -> RecordView {
    (l.subrange(0, 5), Seq::new(WORD_LEN as nat, |i: int| mark_of(l[6 + i])), l.subrange(12, 17))
}

/// The table that a text stands for.
pub open spec fn decode_text(t: Seq<char>) -> Seq<RecordView> {
    Seq::new(t.len() / (LINE_LEN as nat), |k: int| decode_line(line_of(t, k)))
}

/// One record: after `init_guess` got `result`, `best_guess` comes next.
#[derive(Clone, Debug)]
pub struct BestGuess {
    pub init_guess: String,
    pub result: GuessResult,
    pub best_guess: String,
}

impl View for BestGuess {
    type V = RecordView;

    open spec fn view(&self) -> RecordView {
        (self.init_guess@, self.result@, self.best_guess@)
    }
}

/// The plain values of a sequence of records.
pub open spec fn records_view(v: Seq<BestGuess>) -> Seq<RecordView> {
    v.map_values(|b: BestGuess| b@)
}

/// The table of precomputed second guesses.
#[derive(Clone, Debug)]
pub struct Precompute {
    data: Vec<BestGuess>,
}

impl View for Precompute {
    type V = Seq<RecordView>;

    closed spec fn view(&self) -> Seq<RecordView> {
        records_view(self.data@)
    }
}

/// Whether two words have the same letters.
pub(crate) fn same_word(a: &str, b: &str) -> (r: bool)
    ensures
        r == (a@ == b@),
{
    let n = a.unicode_len();
    if n != b.unicode_len() {
        return false;
    }
    let mut i: usize = 0;
    while i < n
        invariant
            i <= n,
            n == a@.len(),
            n == b@.len(),
            forall|j: int| 0 <= j < i ==> a@[j] == b@[j],
        decreases n - i,
    {
        if a.get_char(i) != b.get_char(i) {
            return false;
        }
        i += 1;
    }
    assert(a@ =~= b@);
    true
}

/// Whether two feedbacks are the same.
pub(crate) fn same_result(a: &GuessResult, b: &GuessResult) -> (r: bool)
    ensures
        r == (a@ == b@),
{
    let mut i: usize = 0;
    while i < WORD_LEN
        invariant
            i <= WORD_LEN,
            forall|j: int| 0 <= j < i ==> a@[j] == b@[j],
        decreases WORD_LEN - i,
    {
        if a[i] != b[i] {
            return false;
        }
        i += 1;
    }
    assert(a@ =~= b@);
    true
}

/// The text that stands for mark `m`.
fn mark_text(m: CharResult) -> (r: &'static str)
    ensures
        r@ == seq![mark_char(m)],
{
    match m {
        CharResult::Unknown => {
            proof {
                reveal_strlit("u");
            }
            "u"
        },
        CharResult::Incorrect => {
            proof {
                reveal_strlit("a");
            }
            "a"
        },
        CharResult::CorrectChar => {
            proof {
                reveal_strlit("p");
            }
            "p"
        },
        CharResult::Correct => {
            proof {
                reveal_strlit("c");
            }
            "c"
        },
    }
}

/// The mark that `c` stands for, if it stands for one.
fn mark_from_char(c: char) -> (r: Option<CharResult>)
    ensures
        r is Some <==> is_mark_char(c),
        r matches Some(m) ==> m == mark_of(c),
{
    if c == 'u' {
        Some(CharResult::Unknown)
    } else if c == 'a' {
        Some(CharResult::Incorrect)
    } else if c == 'p' {
        Some(CharResult::CorrectChar)
    } else if c == 'c' {
        Some(CharResult::Correct)
    } else {
        None
    }
}

impl Precompute {
    /// An empty table.
    pub fn new() -> (r: Precompute)
        ensures
            r@ == Seq::<RecordView>::empty(),
    {
        let r = Precompute { data: Vec::new() };
        assert(r@ =~= Seq::<RecordView>::empty());
        r
    }

    /// Appends a record; it replaces any earlier record with the same key.
    pub fn add(&mut self, record: BestGuess)
        ensures
            final(self)@ == old(self)@.push(record@),
    {
        self.data.push(record);
        assert(self@ =~= old(self)@.push(record@));
    }

    /// Number of records.
    pub fn len(&self) -> (r: usize)
        ensures
            r == self@.len(),
    {
        self.data.len()
    }

    /// Whether every record's words and feedback have `WORD_LEN` entries.
    pub fn is_well_formed(&self) -> (r: bool)
        ensures
            r == table_ok(self@),
    {
        let mut k: usize = 0;
        while k < self.data.len()
            invariant
                k <= self.data@.len(),
                forall|j: int| 0 <= j < k ==> record_ok(#[trigger] self@[j]),
            decreases self.data@.len() - k,
        {
            let rec = &self.data[k];
            assert(self@[k as int] == rec@);
            if rec.init_guess.as_str().unicode_len() != WORD_LEN
                || rec.best_guess.as_str().unicode_len() != WORD_LEN {
                return false;
            }
            k += 1;
        }
        true
    }

    /// The best guess stored for opening guess `guess` and its feedback
    /// `result`.
    pub fn get(&self, guess: &str, result: &GuessResult) -> (r: Option<String>)
        ensures
            match r {
                Some(s) => table_lookup(self@, guess@, result@) == Some(s@),
                None => table_lookup(self@, guess@, result@) is None,
            },
    {
        let mut k: usize = self.data.len();
        assert(self@.take(k as int) == self@);
        while k > 0
            invariant
                k <= self.data@.len(),
                table_lookup(self@, guess@, result@) == table_lookup(
                    self@.take(k as int),
                    guess@,
                    result@,
                ),
            decreases k,
        {
            let rec = &self.data[k - 1];
            proof {
                assert(self@.take(k as int).drop_last() == self@.take(k - 1));
                assert(self@.take(k as int).last() == rec@);
            }
            if same_word(rec.init_guess.as_str(), guess) && same_result(&rec.result, result) {
                return Some(rec.best_guess.clone());
            }
            k -= 1;
        }
        None
    }

    /// The text form of the table: one fixed-width line per record.
    pub fn to_text(&self) -> (r: String)
        ensures
            r@ == table_text(self@),
    {
        let mut out = String::new();
        let mut k: usize = 0;
        while k < self.data.len()
            invariant
                k <= self.data@.len(),
                out@ == table_text(self@.take(k as int)),
            decreases self.data@.len() - k,
        {
            let rec = &self.data[k];
            let ghost before = out@;
            out.append(rec.init_guess.as_str());
            out.append(" ");
            proof {
                reveal_strlit(" ");
                assert(rec.result@.take(0).map_values(|m: CharResult| mark_char(m)) =~= Seq::<
                    char,
                >::empty());
            }
            let mut i: usize = 0;
            while i < WORD_LEN
                invariant
                    i <= WORD_LEN,
                    out@ == before + rec.init_guess@ + seq![' '] + rec.result@.take(
                        i as int,
                    ).map_values(|m: CharResult| mark_char(m)),
                decreases WORD_LEN - i,
            {
                out.append(mark_text(rec.result[i]));
                i += 1;
                assert(rec.result@.take(i as int).map_values(|m: CharResult| mark_char(m))
                    == rec.result@.take(i - 1).map_values(|m: CharResult| mark_char(m)).push(
                    mark_char(rec.result@[i - 1]),
                ));
            }
            out.append(" ");
            out.append(rec.best_guess.as_str());
            out.append("\n");
            proof {
                reveal_strlit(" ");
                reveal_strlit("\n");
                assert(rec.result@.take(WORD_LEN as int) == rec.result@);
                assert(self@.take(k + 1).drop_last() == self@.take(k as int));
                assert(self@.take(k + 1).last() == rec@);
                assert(out@ =~= table_text(self@.take(k + 1)));
            }
            k += 1;
        }
        assert(self@.take(self@.len() as int) == self@);
        out
    }
}

/// The record on the line of `text` that starts at `base`, if the line is
/// well formed.
fn parse_line(text: &str, base: usize) -> (r: Option<BestGuess>)
    requires
        base + LINE_LEN <= text@.len(),
        text@.len() <= usize::MAX,
    ensures
        r is Some <==> line_ok(text@.subrange(base as int, base + LINE_LEN)),
        r matches Some(b) ==> b@ == decode_line(text@.subrange(base as int, base + LINE_LEN)),
{
    let ghost l = text@.subrange(base as int, base + LINE_LEN);
    if text.get_char(base + 5) != ' ' || text.get_char(base + 11) != ' ' || text.get_char(base + 17)
        != '\n' {
        return None;
    }
    let mut result: GuessResult = [CharResult::Unknown;WORD_LEN];
    let mut i: usize = 0;
    while i < WORD_LEN
        invariant
            i <= WORD_LEN,
            base + LINE_LEN <= text@.len(),
            text@.len() <= usize::MAX,
            l == text@.subrange(base as int, base + LINE_LEN),
            forall|j: int| 0 <= j < i ==> is_mark_char(#[trigger] l[6 + j]) && result@[j] == mark_of(l[6 + j]),
        decreases WORD_LEN - i,
    {
        match mark_from_char(text.get_char(base + 6 + i)) {
            Some(m) => {
                result[i] = m;
            },
            None => {
                assert(!is_mark_char(l[6 + i]));
                return None;
            },
        }
        i += 1;
    }
    let init_guess = text.substring_char(base, base + 5).to_owned();
    let best_guess = text.substring_char(base + 12, base + 17).to_owned();
    let b = BestGuess { init_guess, result, best_guess };
    assert(b@.0 =~= l.subrange(0, 5));
    assert(b@.2 =~= l.subrange(12, 17));
    assert(b@.1 =~= Seq::new(WORD_LEN as nat, |i: int| mark_of(l[6 + i])));
    Some(b)
}

/// The table whose text form is `text`, or `None` when `text` is not the
/// text form of any table.
pub fn parse_precomputed_data(text: &str) -> (r: Option<Precompute>)
    ensures
        r is Some <==> text_ok(text@),
        r matches Some(t) ==> t@ == decode_text(text@),
{
    let n = text.unicode_len();
    if n % LINE_LEN != 0 {
        return None;
    }
    let count = n / LINE_LEN;
    proof {
        lemma_fundamental_div_mod(n as int, LINE_LEN as int);
    }
    let ghost d = decode_text(text@);
    let mut data: Vec<BestGuess> = Vec::new();
    let mut k: usize = 0;
    let mut base: usize = 0;
    while k < count
        invariant
            n == text@.len(),
            n % LINE_LEN == 0,
            count == n / LINE_LEN,
            d == decode_text(text@),
            d.len() == count,
            k <= count,
            base == LINE_LEN * k,
            base + LINE_LEN * (count - k) == n,
            forall|j: int| 0 <= j < k ==> line_ok(#[trigger] line_of(text@, j)),
            records_view(data@) == d.take(k as int),
        decreases count - k,
    {
        let ghost before = data@;
        assert(line_of(text@, k as int) == text@.subrange(base as int, base + LINE_LEN));
        match parse_line(text, base) {
            Some(rec) => {
                data.push(rec);
                assert(data@ == before.push(rec));
                assert(d[k as int] == rec@);
                assert(records_view(before) == d.take(k as int));
                assert(records_view(before).len() == before.len());
                assert(before.len() == k);
                assert forall|j: int| 0 <= j < k + 1 implies #[trigger] records_view(data@)[j] == d.take(k + 1)[j] by {
                    if j < k {
                        assert(records_view(before)[j] == d.take(k as int)[j]);
                    }
                }
                assert(records_view(data@) =~= d.take(k + 1));
            },
            None => {
                assert(!line_ok(line_of(text@, k as int)));
                return None;
            },
        }
        k += 1;
        base += LINE_LEN;
    }
    let r = Precompute { data };
    assert(d.take(count as int) == d);
    Some(r)
}

proof fn lemma_record_line(r: RecordView)
    requires
        record_ok(r),
    ensures
        record_text(r).len() == LINE_LEN,
        line_ok(record_text(r)),
        decode_line(record_text(r)) == r,
{
    let l = record_text(r);
    let marks = r.1.map_values(|m: CharResult| mark_char(m));
    assert(l.len() == LINE_LEN);
    assert forall|i: int| 0 <= i < WORD_LEN implies #[trigger] l[6 + i] == mark_char(r.1[i]) by {
        assert(l[6 + i] == marks[i]);
    }
    let d = decode_line(l);
    assert(d.0 =~= r.0);
    assert(d.2 =~= r.2);
    assert(d.1 =~= r.1);
}

proof fn lemma_table_text_lines(recs: Seq<RecordView>)
    requires
        table_ok(recs),
    ensures
        table_text(recs).len() == LINE_LEN * recs.len(),
        forall|k: int|
            0 <= k < recs.len() ==> #[trigger] line_of(table_text(recs), k) == record_text(
                recs[k],
            ),
    decreases recs.len(),
{
    if recs.len() > 0 {
        let prev = recs.drop_last();
        assert(table_ok(prev)) by {
            assert forall|k: int| 0 <= k < prev.len() implies record_ok(#[trigger] prev[k]) by {
                assert(prev[k] == recs[k]);
            }
        }
        lemma_table_text_lines(prev);
        lemma_record_line(recs.last());
        let t = table_text(recs);
        assert(t == table_text(prev) + record_text(recs.last()));
        assert forall|k: int| 0 <= k < recs.len() implies #[trigger] line_of(t, k) == record_text(
            recs[k],
        ) by {
            if k < recs.len() - 1 {
                assert(line_of(t, k) =~= line_of(table_text(prev), k));
                assert(recs[k] == prev[k]);
            } else {
                assert(line_of(t, k) =~= record_text(recs.last()));
            }
        }
    }
}

/// Writing a table as text and reading that text back gives the same
/// records, so every lookup answers as it did before.
pub proof fn lemma_table_round_trip(recs: Seq<RecordView>)
    requires
        table_ok(recs),
    ensures
        text_ok(table_text(recs)),
        decode_text(table_text(recs)) == recs,
        forall|g: Seq<char>, fb: Seq<CharResult>|
            table_lookup(decode_text(table_text(recs)), g, fb) == table_lookup(recs, g, fb),
{
    let t = table_text(recs);
    lemma_table_text_lines(recs);
    lemma_mod_multiples_basic(recs.len() as int, LINE_LEN as int);
    lemma_div_multiples_vanish(recs.len() as int, LINE_LEN as int);
    assert(t.len() / (LINE_LEN as nat) == recs.len());
    assert forall|k: int| 0 <= k < t.len() / (LINE_LEN as nat) implies line_ok(
        #[trigger] line_of(t, k),
    ) by {
        lemma_record_line(recs[k]);
    }
    assert forall|k: int| 0 <= k < recs.len() implies decode_text(t)[k] == recs[k] by {
        lemma_record_line(recs[k]);
        assert(line_of(t, k) == record_text(recs[k]));
    }
    assert(decode_text(t) =~= recs);
}

/// A best guess found in a well-formed table has `WORD_LEN` letters.
pub proof fn lemma_lookup_found(recs: Seq<RecordView>, g: Seq<char>, fb: Seq<CharResult>)
    requires
        table_ok(recs),
    ensures
        table_lookup(recs, g, fb) matches Some(w) ==> w.len() == WORD_LEN,
    decreases recs.len(),
{
    if recs.len() > 0 {
        assert(record_ok(recs[recs.len() - 1]));
        let prev = recs.drop_last();
        assert forall|k: int| 0 <= k < prev.len() implies record_ok(#[trigger] prev[k]) by {
            assert(prev[k] == recs[k]);
        }
        lemma_lookup_found(prev, g, fb);
    }
}

} // verus!
