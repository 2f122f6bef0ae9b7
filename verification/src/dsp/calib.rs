use vstd::prelude::*;

verus! {

broadcast use vstd::string::group_string_axioms;

/// Whether `c` has the Unicode White_Space property, the set that
/// `char::is_whitespace` tests: tab, line feed, vertical tab, form feed,
/// carriage return, space, U+0085, U+00A0, U+1680, U+2000 to U+200A,
/// U+2028, U+2029, U+202F, U+205F and U+3000.
pub open spec fn is_white_space(c: char) -> bool {
    let u = c as u32;
    ||| 0x09 <= u <= 0x0D
    ||| u == 0x20
    ||| u == 0x85
    ||| u == 0xA0
    ||| u == 0x1680
    ||| 0x2000 <= u <= 0x200A
    ||| u == 0x2028
    ||| u == 0x2029
    ||| u == 0x202F
    ||| u == 0x205F
    ||| u == 0x3000
}

/// Whether `c` is white space, as `char::is_whitespace` answers.
pub fn char_is_whitespace(c: char) -> (r: bool)
    ensures
        r == is_white_space(c),
{
    let u = c as u32;
    (0x09 <= u && u <= 0x0D) || u == 0x20 || u == 0x85 || u == 0xA0 || u == 0x1680 || (0x2000
        <= u && u <= 0x200A) || u == 0x2028 || u == 0x2029 || u == 0x202F || u == 0x205F || u
        == 0x3000
}

/// The pieces of `text` between line feeds; the last piece is what follows
/// the last line feed, so there is always at least one.
pub open spec fn split_lines(text: Seq<char>) -> Seq<Seq<char>>
    decreases text.len(),
{
    if text.len() == 0 {
        seq![Seq::<char>::empty()]
    } else {
        let prev = split_lines(text.drop_last());
        if text.last() == '\n' {
            prev.push(Seq::<char>::empty())
        } else {
            prev.update(prev.len() - 1, prev.last().push(text.last()))
        }
    }
}

proof fn lemma_split_lines_nonempty(text: Seq<char>)
    ensures
        split_lines(text).len() >= 1,
    decreases text.len(),
{
    if text.len() > 0 {
        lemma_split_lines_nonempty(text.drop_last());
    }
}

/// Number of characters before the first `#`, or all of them.
pub open spec fn hash_index(line: Seq<char>) -> nat
    decreases line.len(),
{
    if line.len() == 0 {
        0
    } else if line[0] == '#' {
        0
    } else {
        1 + hash_index(line.drop_first())
    }
}

/// A line without its comment: everything before the first `#`.
pub open spec fn strip_comment(line: Seq<char>) -> Seq<char> {
    line.take(hash_index(line) as int)
}

proof fn lemma_hash_index(line: Seq<char>, i: int)
    requires
        0 <= i <= line.len(),
        forall|j: int| 0 <= j < i ==> line[j] != '#',
        i == line.len() || line[i] == '#',
    ensures
        hash_index(line) == i,
    decreases i,
{
    if i > 0 {
        let rest = line.drop_first();
        assert forall|j: int| 0 <= j < i - 1 implies rest[j] != '#' by {
            assert(rest[j] == line[j + 1]);
        }
        if i < line.len() {
            assert(rest[i - 1] == line[i]);
        }
        lemma_hash_index(rest, i - 1);
    }
}

/// Scan state of `split_whitespace` over `s`: the finished words and the
/// word being read.
pub open spec fn word_scan(s: Seq<char>) -> (Seq<Seq<char>>, Seq<char>)
    decreases s.len(),
{
    if s.len() == 0 {
        (Seq::empty(), Seq::empty())
    } else {
        let (done, cur) = word_scan(s.drop_last());
        let c = s.last();
        if is_white_space(c) {
            if cur.len() > 0 {
                (done.push(cur), Seq::empty())
            } else {
                (done, Seq::empty())
            }
        } else {
            (done, cur.push(c))
        }
    }
}

/// The maximal runs of non-white-space characters of `s`, in order.
pub open spec fn words(s: Seq<char>) -> Seq<Seq<char>> {
    let (done, cur) = word_scan(s);
    if cur.len() > 0 {
        done.push(cur)
    } else {
        done
    }
}

/// The words of a line once its comment is cut off.
pub open spec fn line_words(line: Seq<char>) -> Seq<Seq<char>> {
    words(strip_comment(line))
}

/// The characters of `text`, in order.
fn text_chars(text: &str) -> (r: Vec<char>)
    ensures
        r@ == text@,
{
    let mut it = text.chars();
    let mut r: Vec<char> = Vec::new();
    let ghost n = text@.len();
    loop
        invariant
            r@.len() <= n,
            n == text@.len(),
            vstd::std_specs::iter::IteratorSpec::remaining(&it) == text@.skip(r@.len() as int),
            r@ == text@.take(r@.len() as int),
        decreases n - r@.len(),
    {
        match it.next() {
            Some(c) => {
                assert(text@.skip(r@.len() as int)[0] == text@[r@.len() as int]);
                r.push(c);
                assert(text@.skip(r@.len() as int) =~= text@.skip((r@.len() - 1) as int).drop_first());
                assert(r@ =~= text@.take(r@.len() as int));
            },
            None => {
                assert(r@ =~= text@);
                return r;
            },
        }
    }
}

/// The lines of `chars`, split at each line feed.
fn lines_of(chars: &Vec<char>) -> (r: Vec<Vec<char>>)
    ensures
        r.deep_view() == split_lines(chars@),
{
    let mut done: Vec<Vec<char>> = Vec::new();
    let mut cur: Vec<char> = Vec::new();
    let mut i: usize = 0;
    assert(chars@.take(0) =~= Seq::<char>::empty());
    assert(done.deep_view().push(cur@) =~= split_lines(chars@.take(0)));
    while i < chars.len()
        invariant
            i <= chars@.len(),
            done.deep_view().push(cur@) == split_lines(chars@.take(i as int)),
        decreases chars@.len() - i,
    {
        let c = chars[i];
        let ghost prev = done.deep_view();
        let ghost prev_cur = cur@;
        assert(chars@.take(i + 1).drop_last() =~= chars@.take(i as int));
        if c == '\n' {
            let finished = cur;
            done.push(finished);
            cur = Vec::new();
            assert(done.deep_view() =~~= prev.push(prev_cur));
        } else {
            cur.push(c);
            assert(done.deep_view() =~= prev);
        }
        i = i + 1;
        assert(done.deep_view().push(cur@) =~= split_lines(chars@.take(i as int)));
    }
    assert(chars@.take(i as int) =~= chars@);
    let ghost before = done.deep_view();
    done.push(cur);
    assert(done.deep_view() =~~= before.push(cur@));
    done
}

/// The words of one line, its comment cut off.
fn words_of_line(line: &Vec<char>) -> (r: Vec<Vec<char>>)
    ensures
        r.deep_view() == line_words(line@),
{
    let mut done: Vec<Vec<char>> = Vec::new();
    let mut cur: Vec<char> = Vec::new();
    let mut i: usize = 0;
    assert(line@.take(0) =~= Seq::<char>::empty());
    while i < line.len() && line[i] != '#'
        invariant
            i <= line@.len(),
            forall|j: int| 0 <= j < i ==> line@[j] != '#',
            (done.deep_view(), cur@) == word_scan(line@.take(i as int)),
        decreases line@.len() - i,
    {
        let c = line[i];
        let ghost prev = done.deep_view();
        let ghost prev_cur = cur@;
        assert(line@.take(i + 1).drop_last() =~= line@.take(i as int));
        if char_is_whitespace(c) {
            if cur.len() > 0 {
                let finished = cur;
                done.push(finished);
                cur = Vec::new();
                assert(done.deep_view() =~~= prev.push(prev_cur));
            } else {
                cur = Vec::new();
            }
        } else {
            cur.push(c);
        }
        i = i + 1;
        assert(cur@ =~= word_scan(line@.take(i as int)).1);
        assert(done.deep_view() =~= word_scan(line@.take(i as int)).0);
    }
    proof {
        lemma_hash_index(line@, i as int);
    }
    if cur.len() > 0 {
        let ghost before = done.deep_view();
        let ghost last = cur@;
        done.push(cur);
        assert(done.deep_view() =~~= before.push(last));
    }
    done
}

/// Keys of the calibration file.
#[derive(Clone, Copy, PartialEq, Eq, Debug, Structural)]
pub enum Key {
    /// `name <words...>`: the profile name.
    Name,
    /// `itd_band <lo> <hi>`: band of frequencies used for time differences.
    ItdBand,
    /// `itd <azimuth> <microseconds>`: one node of the time-difference table.
    Itd,
    /// `ild_band <lo> <hi>`: opens a new level-difference band.
    IldBand,
    /// `ild <azimuth> <decibels>`: one node of the last opened band.
    Ild,
}

/// What is wrong with a line of a calibration file.
#[derive(Clone, Copy, PartialEq, Eq, Debug, Structural)]
pub enum FaultKind {
    /// `itd_band` without exactly two values.
    ItdBandArity,
    /// `itd` without exactly two values.
    ItdArity,
    /// `ild_band` without exactly two values.
    IldBandArity,
    /// `ild` without exactly two values.
    IldArity,
    /// `ild` before any `ild_band`.
    IldBeforeBand,
    /// A first word that is no key.
    UnknownKey,
}

/// The spelling of a key.
pub open spec fn key_word(k: Key) -> Seq<char> {
    match k {
        Key::Name => seq!['n', 'a', 'm', 'e'],
        Key::ItdBand => seq!['i', 't', 'd', '_', 'b', 'a', 'n', 'd'],
        Key::Itd => seq!['i', 't', 'd'],
        Key::IldBand => seq!['i', 'l', 'd', '_', 'b', 'a', 'n', 'd'],
        Key::Ild => seq!['i', 'l', 'd'],
    }
}

/// The key that `w` spells, if any.
pub open spec fn key_of(w: Seq<char>) -> Option<Key> {
    if w == key_word(Key::Name) {
        Some(Key::Name)
    } else if w == key_word(Key::ItdBand) {
        Some(Key::ItdBand)
    } else if w == key_word(Key::Itd) {
        Some(Key::Itd)
    } else if w == key_word(Key::IldBand) {
        Some(Key::IldBand)
    } else if w == key_word(Key::Ild) {
        Some(Key::Ild)
    } else {
        None
    }
}

/// The fault of a two-valued key given a different number of values.
pub open spec fn arity_fault(k: Key) -> FaultKind {
    match k {
        Key::ItdBand => FaultKind::ItdBandArity,
        Key::Itd => FaultKind::ItdArity,
        Key::IldBand => FaultKind::IldBandArity,
        _ => FaultKind::IldArity,
    }
}

/// Words joined by single spaces.
pub open spec fn join_words(ws: Seq<Seq<char>>) -> Seq<char>
    decreases ws.len(),
{
    if ws.len() == 0 {
        Seq::empty()
    } else if ws.len() == 1 {
        ws[0]
    } else {
        join_words(ws.drop_last()) + seq![' '] + ws.last()
    }
}

/// The meaning of a line with words `ws`, `band_open` telling whether an
/// `ild_band` came before: nothing for a blank line, a key with its values,
/// or a fault with the line's first word.
pub open spec fn classify(ws: Seq<Seq<char>>, band_open: bool) -> Result<
    Option<(Key, Seq<Seq<char>>)>,
    (FaultKind, Seq<char>),
> {
    if ws.len() == 0 {
        Ok(None)
    } else {
        let first = ws[0];
        let rest = ws.drop_first();
        match key_of(first) {
            None => Err((FaultKind::UnknownKey, first)),
            Some(Key::Name) => Ok(Some((Key::Name, seq![join_words(rest)]))),
            Some(Key::Ild) => if rest.len() != 2 {
                Err((FaultKind::IldArity, first))
            } else if !band_open {
                Err((FaultKind::IldBeforeBand, first))
            } else {
                Ok(Some((Key::Ild, rest)))
            },
            Some(k) => if rest.len() != 2 {
                Err((arity_fault(k), first))
            } else {
                Ok(Some((k, rest)))
            },
        }
    }
}

/// The directives of the first `k` lines (line number, key, values), the
/// first fault among them (line number, kind, first word), and whether an
/// `ild_band` was seen. Reading stops at the first fault.
pub open spec fn scan_lines(lines: Seq<Seq<char>>, k: nat) -> (
    Seq<(nat, Key, Seq<Seq<char>>)>,
    Option<(nat, FaultKind, Seq<char>)>,
    bool,
)
    decreases k,
{
    if k == 0 {
        (Seq::empty(), None, false)
    } else {
        let (ds, fault, band) = scan_lines(lines, (k - 1) as nat);
        if fault is Some {
            (ds, fault, band)
        } else {
            match classify(line_words(lines[k - 1]), band) {
                Ok(None) => (ds, None, band),
                Ok(Some((key, args))) => (
                    ds.push((k, key, args)),
                    None,
                    band || key == Key::IldBand,
                ),
                Err((kind, w)) => (ds, Some((k, kind, w)), band),
            }
        }
    }
}

/// The reading of a whole calibration text.
pub open spec fn scan_text(text: Seq<char>) -> (
    Seq<(nat, Key, Seq<Seq<char>>)>,
    Option<(nat, FaultKind, Seq<char>)>,
    bool,
) {
    scan_lines(split_lines(text), split_lines(text).len())
}

/// Some directive is an `itd` node.
pub open spec fn has_itd(ds: Seq<(nat, Key, Seq<Seq<char>>)>) -> bool {
    exists|i: int| 0 <= i < ds.len() && #[trigger] ds[i].1 == Key::Itd
}

/// An `ild_band` opens the level-difference bands: after the first `k`
/// lines a band is open exactly when an `ild_band` directive was read, every
/// `ild` node follows an `ild_band` directive, and an `ild` before any band
/// faults only when no `ild_band` directive was read.
pub proof fn law_ild_needs_earlier_ild_band(lines: Seq<Seq<char>>, k: nat)
    ensures
        scan_lines(lines, k).2 <==> exists|j: int|
            0 <= j < scan_lines(lines, k).0.len() && #[trigger] scan_lines(lines, k).0[j].1
                == Key::IldBand,
        forall|i: int|
            0 <= i < scan_lines(lines, k).0.len() && #[trigger] scan_lines(lines, k).0[i].1
                == Key::Ild ==> exists|j: int|
                0 <= j < i && #[trigger] scan_lines(lines, k).0[j].1 == Key::IldBand,
        (scan_lines(lines, k).1 matches Some(f) && f.1 == FaultKind::IldBeforeBand) ==> forall|
            j: int,
        |
            0 <= j < scan_lines(lines, k).0.len() ==> #[trigger] scan_lines(lines, k).0[j].1
                != Key::IldBand,
    decreases k,
{
    if k > 0 {
        law_ild_needs_earlier_ild_band(lines, (k - 1) as nat);
        let prev = scan_lines(lines, (k - 1) as nat);
        let cur = scan_lines(lines, k);
        if prev.1 is None {
            let ws = line_words(lines[k - 1]);
            match classify(ws, prev.2) {
                Ok(Some(d)) => {
                    let (key, args) = d;
                    assert(cur.0 == prev.0.push((k, key, args)));
                    assert(cur.2 == (prev.2 || key == Key::IldBand));
                    assert forall|j: int| 0 <= j < prev.0.len() implies #[trigger] cur.0[j]
                        == prev.0[j] by {}
                    if key == Key::Ild {
                        assert(prev.2);
                        let j = choose|j: int|
                            0 <= j < prev.0.len() && #[trigger] prev.0[j].1 == Key::IldBand;
                        assert(cur.0[j].1 == Key::IldBand);
                    }
                    if key == Key::IldBand {
                        assert(cur.0[cur.0.len() - 1].1 == Key::IldBand);
                    }
                    if exists|j: int| 0 <= j < cur.0.len() && #[trigger] cur.0[j].1 == Key::IldBand {
                        let j = choose|j: int| 0 <= j < cur.0.len() && #[trigger] cur.0[j].1 == Key::IldBand;
                        if j < prev.0.len() {
                            assert(prev.0[j].1 == Key::IldBand);
                        }
                    }
                    if prev.2 {
                        let j = choose|j: int|
                            0 <= j < prev.0.len() && #[trigger] prev.0[j].1 == Key::IldBand;
                        assert(cur.0[j].1 == Key::IldBand);
                    }
                    assert forall|i: int|
                        0 <= i < cur.0.len() && #[trigger] cur.0[i].1 == Key::Ild implies exists|j: int|
                        0 <= j < i && #[trigger] cur.0[j].1 == Key::IldBand by {
                        if i < prev.0.len() {
                            assert(prev.0[i].1 == Key::Ild);
                            let j = choose|j: int| 0 <= j < i && #[trigger] prev.0[j].1 == Key::IldBand;
                            assert(cur.0[j].1 == Key::IldBand);
                        } else {
                            let j = choose|j: int|
                                0 <= j < prev.0.len() && #[trigger] prev.0[j].1 == Key::IldBand;
                            assert(cur.0[j].1 == Key::IldBand);
                        }
                    }
                },
                _ => {},
            }
        }
    }
}

proof fn lemma_fault_sticks(lines: Seq<Seq<char>>, k: nat, m: nat)
    requires
        k <= m,
        scan_lines(lines, k).1 is Some,
    ensures
        scan_lines(lines, m) == scan_lines(lines, k),
    decreases m,
{
    if m > k {
        lemma_fault_sticks(lines, k, (m - 1) as nat);
    }
}

/// One directive of a calibration file: the line it stands on (counted
/// from 1), its key and its values as written. A `name` has one value, the
/// rest of its line joined by single spaces; the other keys have two.
pub struct Directive {
    pub line: usize,
    pub key: Key,
    pub args: Vec<Vec<char>>,
}

impl View for Directive {
    type V = (nat, Key, Seq<Seq<char>>);

    open spec fn view(&self) -> (nat, Key, Seq<Seq<char>>) {
        (self.line as nat, self.key, self.args.deep_view())
    }
}

/// A line that breaks the grammar: its number (counted from 1), what is
/// wrong, and its first word.
pub struct LineFault {
    pub line: usize,
    pub kind: FaultKind,
    pub word: Vec<char>,
}

/// How reading a calibration text ended.
pub enum ScanEnd {
    /// Every line was read and an `itd` node is among the directives.
    Complete,
    /// Reading stopped at this line.
    Fault(LineFault),
    /// Every line was read but no `itd` node was found.
    MissingItd,
}

/// The directives of a calibration text up to its first fault, and how
/// reading ended. The numbers stay as written; converting them, and the
/// checks that need their values, come after.
pub struct CalibrationScript {
    pub directives: Vec<Directive>,
    pub end: ScanEnd,
}

/// Whether `w` spells the same characters as `lit`.
fn same_word(w: &Vec<char>, lit: &[char]) -> (r: bool)
    ensures
        r == (w@ == lit@),
{
    if w.len() != lit.len() {
        return false;
    }
    let mut i: usize = 0;
    while i < w.len()
        invariant
            w@.len() == lit@.len(),
            i <= w@.len(),
            forall|j: int| 0 <= j < i ==> w@[j] == lit@[j],
        decreases w@.len() - i,
    {
        if w[i] != lit[i] {
            return false;
        }
        i = i + 1;
    }
    assert(w@ =~= lit@);
    true
}

/// The key that `w` spells, if any.
fn key_of_word(w: &Vec<char>) -> (r: Option<Key>)
    ensures
        r == key_of(w@),
{
    let name = ['n', 'a', 'm', 'e'];
    let itd_band = ['i', 't', 'd', '_', 'b', 'a', 'n', 'd'];
    let itd = ['i', 't', 'd'];
    let ild_band = ['i', 'l', 'd', '_', 'b', 'a', 'n', 'd'];
    let ild = ['i', 'l', 'd'];
    assert(name@ =~= key_word(Key::Name));
    assert(itd_band@ =~= key_word(Key::ItdBand));
    assert(itd@ =~= key_word(Key::Itd));
    assert(ild_band@ =~= key_word(Key::IldBand));
    assert(ild@ =~= key_word(Key::Ild));
    if same_word(w, &name) {
        Some(Key::Name)
    } else if same_word(w, &itd_band) {
        Some(Key::ItdBand)
    } else if same_word(w, &itd) {
        Some(Key::Itd)
    } else if same_word(w, &ild_band) {
        Some(Key::IldBand)
    } else if same_word(w, &ild) {
        Some(Key::Ild)
    } else {
        None
    }
}

/// The words joined by single spaces.
fn join_with_spaces(ws: &Vec<Vec<char>>) -> (r: Vec<char>)
    ensures
        r@ == join_words(ws.deep_view()),
{
    let mut r: Vec<char> = Vec::new();
    let mut i: usize = 0;
    let ghost dv = ws.deep_view();
    while i < ws.len()
        invariant
            dv == ws.deep_view(),
            i <= ws@.len(),
            r@ == join_words(dv.take(i as int)),
        decreases ws@.len() - i,
    {
        let ghost before = r@;
        if i > 0 {
            r.push(' ');
        }
        let w = &ws[i];
        let mut j: usize = 0;
        let ghost mid = r@;
        while j < w.len()
            invariant
                j <= w@.len(),
                r@ == mid + w@.take(j as int),
            decreases w@.len() - j,
        {
            r.push(w[j]);
            j = j + 1;
            assert(r@ =~= mid + w@.take(j as int));
        }
        assert(w@.take(j as int) =~= dv[i as int]);
        assert(dv.take(i + 1).drop_last() =~= dv.take(i as int));
        if i == 0 {
            assert(before =~= Seq::<char>::empty());
            assert(r@ =~= dv.take(1)[0]);
        } else {
            assert(r@ =~= before + seq![' '] + dv[i as int]);
        }
        i = i + 1;
    }
    assert(dv.take(i as int) =~= dv);
    r
}

/// Classifies the line with number `line` and words `ws`.
fn classify_line(ws: Vec<Vec<char>>, band_open: bool, line: usize) -> (r: Result<
    Option<Directive>,
    LineFault,
>)
    ensures
        match classify(ws.deep_view(), band_open) {
            Ok(None) => r is Ok && r->Ok_0 is None,
            Ok(Some((key, args))) => r is Ok && r->Ok_0 is Some && r->Ok_0->0@ == (
                line as nat,
                key,
                args,
            ),
            Err((kind, w)) => r is Err && r->Err_0.line == line && r->Err_0.kind == kind
                && r->Err_0.word@ == w,
        },
{
    let ghost dv = ws.deep_view();
    if ws.len() == 0 {
        return Ok(None);
    }
    let mut rest = ws;
    let first = rest.remove(0);
    proof {
        assert(first@ =~= dv[0]);
        assert(rest.deep_view() =~~= dv.drop_first());
    }
    match key_of_word(&first) {
        None => Err(LineFault { line, kind: FaultKind::UnknownKey, word: first }),
        Some(Key::Name) => {
            let joined = join_with_spaces(&rest);
            let mut args: Vec<Vec<char>> = Vec::new();
            args.push(joined);
            assert(args.deep_view() =~~= seq![join_words(dv.drop_first())]);
            Ok(Some(Directive { line, key: Key::Name, args }))
        },
        Some(Key::Ild) => {
            if rest.len() != 2 {
                Err(LineFault { line, kind: FaultKind::IldArity, word: first })
            } else if !band_open {
                Err(LineFault { line, kind: FaultKind::IldBeforeBand, word: first })
            } else {
                Ok(Some(Directive { line, key: Key::Ild, args: rest }))
            }
        },
        Some(k) => {
            if rest.len() != 2 {
                let kind = match k {
                    Key::ItdBand => FaultKind::ItdBandArity,
                    Key::Itd => FaultKind::ItdArity,
                    _ => FaultKind::IldBandArity,
                };
                Err(LineFault { line, kind, word: first })
            } else {
                Ok(Some(Directive { line, key: k, args: rest }))
            }
        },
    }
}

proof fn lemma_keys_match(dirs: Seq<Directive>, ds: Seq<(nat, Key, Seq<Seq<char>>)>)
    requires
        dirs.map_values(|d: Directive| d@) == ds,
    ensures
        ds.len() == dirs.len(),
        forall|i: int| 0 <= i < dirs.len() ==> #[trigger] dirs[i].key == ds[i].1,
{
    assert forall|i: int| 0 <= i < dirs.len() implies #[trigger] dirs[i].key == ds[i].1 by {
        assert(dirs.map_values(|d: Directive| d@)[i] == dirs[i]@);
    }
}

proof fn lemma_keys_of(
    dirs: Seq<Directive>,
    ds: Seq<(nat, Key, Seq<Seq<char>>)>,
    fault: Option<(nat, FaultKind, Seq<char>)>,
)
    requires
        ds.len() == dirs.len(),
        forall|i: int| 0 <= i < dirs.len() ==> #[trigger] dirs[i].key == ds[i].1,
        forall|i: int|
            0 <= i < ds.len() && #[trigger] ds[i].1 == Key::Ild ==> exists|j: int|
                0 <= j < i && #[trigger] ds[j].1 == Key::IldBand,
        (fault matches Some(f) && f.1 == FaultKind::IldBeforeBand) ==> forall|j: int|
            0 <= j < ds.len() ==> #[trigger] ds[j].1 != Key::IldBand,
    ensures
        forall|i: int|
            0 <= i < dirs.len() && #[trigger] dirs[i].key == Key::Ild ==> exists|j: int|
                0 <= j < i && #[trigger] dirs[j].key == Key::IldBand,
        (fault matches Some(f) && f.1 == FaultKind::IldBeforeBand) ==> forall|j: int|
            0 <= j < dirs.len() ==> #[trigger] dirs[j].key != Key::IldBand,
        has_itd(ds) <==> exists|i: int| 0 <= i < dirs.len() && #[trigger] dirs[i].key == Key::Itd,
{
    assert forall|i: int|
        0 <= i < dirs.len() && #[trigger] dirs[i].key == Key::Ild implies exists|j: int|
        0 <= j < i && #[trigger] dirs[j].key == Key::IldBand by {
        assert(ds[i].1 == Key::Ild);
        let j = choose|j: int| 0 <= j < i && #[trigger] ds[j].1 == Key::IldBand;
        assert(dirs[j].key == Key::IldBand);
    }
    if has_itd(ds) {
        let i = choose|i: int| 0 <= i < ds.len() && #[trigger] ds[i].1 == Key::Itd;
        assert(dirs[i].key == Key::Itd);
    }
    if exists|i: int| 0 <= i < dirs.len() && #[trigger] dirs[i].key == Key::Itd {
        let i = choose|i: int| 0 <= i < dirs.len() && #[trigger] dirs[i].key == Key::Itd;
        assert(ds[i].1 == Key::Itd);
    }
}

/// The key facts of a reading, carried from its directive triples over to
/// the directives themselves.
proof fn lemma_script_keys(lv: Seq<Seq<char>>, r: CalibrationScript)
    requires
        r.directives@.map_values(|d: Directive| d@) == scan_lines(lv, lv.len()).0,
        match r.end {
            ScanEnd::Fault(f) => scan_lines(lv, lv.len()).1 == Some(
                (f.line as nat, f.kind, f.word@),
            ),
            ScanEnd::Complete => scan_lines(lv, lv.len()).1 is None && has_itd(
                scan_lines(lv, lv.len()).0,
            ),
            ScanEnd::MissingItd => scan_lines(lv, lv.len()).1 is None && !has_itd(
                scan_lines(lv, lv.len()).0,
            ),
        },
    ensures
        forall|i: int|
            0 <= i < r.directives@.len() && #[trigger] r.directives@[i].key == Key::Ild ==> exists|
                j: int,
            |
                0 <= j < i && #[trigger] r.directives@[j].key == Key::IldBand,
        (r.end matches ScanEnd::Fault(f) && f.kind == FaultKind::IldBeforeBand) ==> forall|j: int|
            0 <= j < r.directives@.len() ==> #[trigger] r.directives@[j].key != Key::IldBand,
        r.end is Complete ==> exists|i: int|
            0 <= i < r.directives@.len() && #[trigger] r.directives@[i].key == Key::Itd,
        r.end is MissingItd ==> forall|i: int|
            0 <= i < r.directives@.len() ==> #[trigger] r.directives@[i].key != Key::Itd,
{
    let st = scan_lines(lv, lv.len());
    let ds = st.0;
    let dirs = r.directives@;
    assert(forall|i: int|
        0 <= i < ds.len() && #[trigger] ds[i].1 == Key::Ild ==> exists|j: int|
            0 <= j < i && #[trigger] ds[j].1 == Key::IldBand) by {
        law_ild_needs_earlier_ild_band(lv, lv.len());
    }
    assert((st.1 matches Some(f) && f.1 == FaultKind::IldBeforeBand) ==> forall|j: int|
        0 <= j < ds.len() ==> #[trigger] ds[j].1 != Key::IldBand) by {
        law_ild_needs_earlier_ild_band(lv, lv.len());
    }
    lemma_keys_match(dirs, ds);
    lemma_keys_of(dirs, ds, st.1);
}

/// Reads a calibration text line by line up to its first fault.
///
/// Lines are separated by line feeds; everything from a `#` to the end of
/// its line is a comment; the remaining words are separated by white space.
/// A line without words is skipped. A line names a key by its first word:
/// `name` takes the rest of the line, `itd_band`, `itd`, `ild_band` and
/// `ild` take exactly two values, and `ild` needs an `ild_band` before it.
/// Reading ends with a fault at the first line that breaks this, else
/// complete when an `itd` node was read, else with the `itd` nodes missing.
pub fn scan_calibration(text: &str) -> (r: CalibrationScript)
    ensures
        r.directives@.map_values(|d: Directive| d@) == scan_text(text@).0,
        match r.end {
            ScanEnd::Fault(f) => scan_text(text@).1 == Some((f.line as nat, f.kind, f.word@)),
            ScanEnd::Complete => scan_text(text@).1 is None && has_itd(scan_text(text@).0),
            ScanEnd::MissingItd => scan_text(text@).1 is None && !has_itd(scan_text(text@).0),
        },
        // An `ild` node is read only after an `ild_band`, and the fault for
        // an `ild` before any band comes only when no `ild_band` was read.
        forall|i: int|
            0 <= i < r.directives@.len() && #[trigger] r.directives@[i].key == Key::Ild ==> exists|
                j: int,
            |
                0 <= j < i && #[trigger] r.directives@[j].key == Key::IldBand,
        (r.end matches ScanEnd::Fault(f) && f.kind == FaultKind::IldBeforeBand) ==> forall|j: int|
            0 <= j < r.directives@.len() ==> #[trigger] r.directives@[j].key != Key::IldBand,
        // Reading is complete only with an `itd` node among the directives,
        // and ends with the nodes missing only without one.
        r.end is Complete ==> exists|i: int|
            0 <= i < r.directives@.len() && #[trigger] r.directives@[i].key == Key::Itd,
        r.end is MissingItd ==> forall|i: int|
            0 <= i < r.directives@.len() ==> #[trigger] r.directives@[i].key != Key::Itd,
{
    let chars = text_chars(text);
    let lines = lines_of(&chars);
    let ghost lv = lines.deep_view();
    proof {
        lemma_split_lines_nonempty(text@);
    }
    let mut directives: Vec<Directive> = Vec::new();
    let mut band_open = false;
    let mut itd_seen = false;
    let mut i: usize = 0;
    while i < lines.len()
        invariant
            lv == lines.deep_view(),
            lv == split_lines(text@),
            i <= lines@.len(),
            scan_lines(lv, i as nat) == (
                directives@.map_values(|d: Directive| d@),
                None::<(nat, FaultKind, Seq<char>)>,
                band_open,
            ),
            itd_seen == has_itd(directives@.map_values(|d: Directive| d@)),
        decreases lines@.len() - i,
    {
        let ws = words_of_line(&lines[i]);
        assert(lines@[i as int]@ =~= lv[i as int]);
        let ghost prev = directives@.map_values(|d: Directive| d@);
        match classify_line(ws, band_open, i + 1) {
            Ok(None) => {},
            Ok(Some(d)) => {
                let key = d.key;
                directives.push(d);
                assert(directives@.map_values(|d: Directive| d@) =~= prev.push(
                    directives@[directives@.len() - 1]@,
                ));
                if key == Key::IldBand {
                    band_open = true;
                }
                if key == Key::Itd {
                    itd_seen = true;
                    proof {
                        let now = directives@.map_values(|d: Directive| d@);
                        assert(now[now.len() - 1].1 == Key::Itd);
                    }
                } else {
                    proof {
                        let now = directives@.map_values(|d: Directive| d@);
                        if has_itd(now) {
                            let j = choose|j: int| 0 <= j < now.len() && #[trigger] now[j].1 == Key::Itd;
                            assert(j < prev.len());
                            assert(prev[j].1 == Key::Itd);
                        }
                        if has_itd(prev) {
                            let j = choose|j: int| 0 <= j < prev.len() && #[trigger] prev[j].1 == Key::Itd;
                            assert(now[j].1 == Key::Itd);
                        }
                    }
                }
            },
            Err(f) => {
                proof {
                    lemma_fault_sticks(lv, (i + 1) as nat, lv.len());
                }
                let r = CalibrationScript { directives, end: ScanEnd::Fault(f) };
                proof {
                    lemma_script_keys(lv, r);
                }
                return r;
            },
        }
        i = i + 1;
    }
    let r = if itd_seen {
        CalibrationScript { directives, end: ScanEnd::Complete }
    } else {
        CalibrationScript { directives, end: ScanEnd::MissingItd }
    };
    proof {
        lemma_script_keys(lv, r);
    }
    r
}

/// How one entry of a calibration table is completed from the measured
/// nodes.
#[derive(Clone, Copy, PartialEq, Eq, Debug, Structural)]
pub enum GapFill {
    /// The entry is a measured node and stays.
    Known,
    /// The entry lies outside the measured range and takes the value of the
    /// nearest node, at this index.
    Copy(usize),
    /// The entry lies between the nodes at these indices and is interpolated
    /// linearly between them.
    Between(usize, usize),
}

/// Number of measured nodes.
pub open spec fn count_known(known: Seq<bool>) -> nat
    decreases known.len(),
{
    if known.len() == 0 {
        0
    } else {
        count_known(known.drop_last()) + if known.last() {
            1nat
        } else {
            0nat
        }
    }
}

/// Index of the last node before `i`, or -1.
pub open spec fn node_before(known: Seq<bool>, i: int) -> int
    decreases i,
{
    if i <= 0 {
        -1
    } else if known[i - 1] {
        i - 1
    } else {
        node_before(known, i - 1)
    }
}

/// Index of the first node at or after `i`, or the length.
pub open spec fn node_from(known: Seq<bool>, i: int) -> int
    decreases known.len() - i,
{
    if i >= known.len() {
        known.len() as int
    } else if known[i] {
        i
    } else {
        node_from(known, i + 1)
    }
}

/// How entry `i` is completed: nodes stay, entries before the first node or
/// after the last copy that node, entries between two nodes are
/// interpolated between their neighbouring nodes.
pub open spec fn gap_fill(known: Seq<bool>, i: int) -> GapFill {
    if known[i] {
        GapFill::Known
    } else {
        let a = node_before(known, i);
        let b = node_from(known, i + 1);
        if a < 0 {
            GapFill::Copy(b as usize)
        } else if b >= known.len() {
            GapFill::Copy(a as usize)
        } else {
            GapFill::Between(a as usize, b as usize)
        }
    }
}

proof fn lemma_count_prefix(known: Seq<bool>, i: int)
    requires
        0 <= i < known.len(),
    ensures
        count_known(known.take(i + 1)) == count_known(known.take(i)) + if known[i] {
            1nat
        } else {
            0nat
        },
{
    assert(known.take(i + 1).drop_last() =~= known.take(i));
}

proof fn lemma_node_before_range(known: Seq<bool>, i: int)
    requires
        0 <= i <= known.len(),
    ensures
        -1 <= node_before(known, i) < i,
        node_before(known, i) >= 0 ==> known[node_before(known, i)],
    decreases i,
{
    if i > 0 && !known[i - 1] {
        lemma_node_before_range(known, i - 1);
    }
}

proof fn lemma_node_from_range(known: Seq<bool>, i: int)
    requires
        0 <= i <= known.len(),
    ensures
        i <= node_from(known, i) <= known.len(),
        node_from(known, i) < known.len() ==> known[node_from(known, i)],
    decreases known.len() - i,
{
    if i < known.len() && !known[i] {
        lemma_node_from_range(known, i + 1);
    }
}

/// With at least two nodes, the plan that completes a table whose measured
/// entries are marked in `known`; without, nothing.
pub fn gap_plan(known: &[bool]) -> (r: Option<Vec<GapFill>>)
    ensures
        r is None <==> count_known(known@) < 2,
        r is Some <==> exists|i: int, j: int|
            0 <= i < j < known@.len() && #[trigger] known@[i] && #[trigger] known@[j],
        r matches Some(plan) ==> plan@.len() == known@.len() && forall|i: int|
            0 <= i < known@.len() ==> #[trigger] plan@[i] == gap_fill(known@, i),
        r matches Some(plan) ==> forall|i: int|
            0 <= i < known@.len() ==> fills_from_neighbours(known@, i, #[trigger] plan@[i]),
{
    let n = known.len();
    let mut count: usize = 0;
    let mut i: usize = 0;
    while i < n
        invariant
            n == known@.len(),
            i <= n,
            count <= i,
            count == count_known(known@.take(i as int)),
        decreases n - i,
    {
        proof {
            lemma_count_prefix(known@, i as int);
        }
        if known[i] {
            count = count + 1;
        }
        i = i + 1;
    }
    assert(known@.take(n as int) =~= known@);
    proof {
        law_node_count(known@);
    }
    if count < 2 {
        return None;
    }
    // Nearest node after each entry, filled from the back.
    let mut after: Vec<usize> = Vec::new();
    let mut j: usize = 0;
    while j < n
        invariant
            after@.len() == j,
            j <= n,
        decreases n - j,
    {
        after.push(n);
        j = j + 1;
    }
    let mut next: usize = n;
    let mut k: usize = n;
    while k > 0
        invariant
            n == known@.len(),
            after@.len() == n,
            k <= n,
            next as int == node_from(known@, k as int),
            forall|m: int| k <= m < n ==> #[trigger] after@[m] as int == node_from(known@, m + 1),
        decreases k,
    {
        k = k - 1;
        after.set(k, next);
        if known[k] {
            next = k;
        }
    }
    let mut plan: Vec<GapFill> = Vec::new();
    let mut prev: Option<usize> = None;
    let mut m: usize = 0;
    while m < n
        invariant
            n == known@.len(),
            after@.len() == n,
            m <= n,
            forall|x: int| 0 <= x < n ==> #[trigger] after@[x] as int == node_from(known@, x + 1),
            match prev {
                Some(p) => p as int == node_before(known@, m as int),
                None => node_before(known@, m as int) == -1,
            },
            plan@.len() == m,
            forall|x: int| 0 <= x < m ==> #[trigger] plan@[x] == gap_fill(known@, x),
        decreases n - m,
    {
        proof {
            lemma_node_before_range(known@, m as int);
            lemma_node_from_range(known@, m + 1);
        }
        let fill = if known[m] {
            GapFill::Known
        } else {
            match prev {
                None => GapFill::Copy(after[m]),
                Some(a) => if after[m] >= n {
                    GapFill::Copy(a)
                } else {
                    GapFill::Between(a, after[m])
                },
            }
        };
        plan.push(fill);
        if known[m] {
            prev = Some(m);
        }
        m = m + 1;
    }
    proof {
        assert forall|i: int| 0 <= i < known@.len() implies fills_from_neighbours(
            known@,
            i,
            #[trigger] plan@[i],
        ) by {
            law_gap_fill_by_neighbours(known@, i);
        }
    }
    Some(plan)
}

/// A comment changes nothing: the words of a line that holds no `#` are
/// the words of that line followed by `#` and any text.
pub proof fn law_comment_is_ignored(line: Seq<char>, comment: Seq<char>)
    requires
        forall|j: int| 0 <= j < line.len() ==> line[j] != '#',
    ensures
        line_words(line + seq!['#'] + comment) == line_words(line),
{
    let full = line + seq!['#'] + comment;
    assert forall|j: int| 0 <= j < line.len() implies full[j] != '#' by {
        assert(full[j] == line[j]);
    }
    assert(full[line.len() as int] == '#');
    lemma_hash_index(full, line.len() as int);
    lemma_hash_index(line, line.len() as int);
    assert(strip_comment(full) =~= line);
    assert(strip_comment(line) =~= line);
}

/// A line without words, blank or all comment, leaves the reading as it
/// was.
pub proof fn law_blank_line_is_skipped(lines: Seq<Seq<char>>, k: nat)
    requires
        k < lines.len(),
        line_words(lines[k as int]).len() == 0,
    ensures
        scan_lines(lines, k + 1) == scan_lines(lines, k),
{
}

/// Directives come in the order of their lines, each line at most once,
/// and none after the line of a fault.
pub proof fn law_scan_in_line_order(lines: Seq<Seq<char>>, k: nat)
    ensures
        forall|i: int, j: int|
            0 <= i < j < scan_lines(lines, k).0.len() ==> #[trigger] scan_lines(lines, k).0[i].0
                < #[trigger] scan_lines(lines, k).0[j].0,
        forall|i: int|
            0 <= i < scan_lines(lines, k).0.len() ==> 1 <= #[trigger] scan_lines(lines, k).0[i].0
                <= k,
        scan_lines(lines, k).1 matches Some(f) ==> 1 <= f.0 <= k && forall|i: int|
            0 <= i < scan_lines(lines, k).0.len() ==> #[trigger] scan_lines(lines, k).0[i].0
                < f.0,
    decreases k,
{
    if k > 0 {
        law_scan_in_line_order(lines, (k - 1) as nat);
        let prev = scan_lines(lines, (k - 1) as nat);
        let cur = scan_lines(lines, k);
        if prev.1 is None {
            assert forall|i: int| 0 <= i < prev.0.len() implies #[trigger] cur.0[i] == prev.0[i] by {
                match classify(line_words(lines[k - 1]), prev.2) {
                    Ok(Some(d)) => {
                        assert(cur.0 == prev.0.push((k, d.0, d.1)));
                    },
                    _ => {},
                }
            }
        }
    }
}

/// A directive stands for its line: the line's first word spells the key,
/// a `name` holds the rest of the line joined by single spaces, and any
/// other key holds the line's two further words.
pub open spec fn directive_matches_line(
    lines: Seq<Seq<char>>,
    d: (nat, Key, Seq<Seq<char>>),
) -> bool {
    &&& 1 <= d.0 <= lines.len()
    &&& line_words(lines[d.0 - 1]).len() >= 1
    &&& key_of(line_words(lines[d.0 - 1])[0]) == Some(d.1)
    &&& d.1 == Key::Name ==> d.2 == seq![join_words(line_words(lines[d.0 - 1]).drop_first())]
    &&& d.1 != Key::Name ==> line_words(lines[d.0 - 1]).len() == 3 && d.2 == line_words(
        lines[d.0 - 1],
    ).drop_first()
}

/// A fault stands for its line: it carries the line's first word, which
/// spells no key exactly for an unknown key; an arity fault names the key
/// whose line has other than two further words, and an `ild` before any
/// band has two values.
pub open spec fn fault_matches_line(lines: Seq<Seq<char>>, f: (nat, FaultKind, Seq<char>)) -> bool {
    &&& 1 <= f.0 <= lines.len()
    &&& line_words(lines[f.0 - 1]).len() >= 1
    &&& f.2 == line_words(lines[f.0 - 1])[0]
    &&& (f.1 == FaultKind::UnknownKey <==> key_of(f.2) is None)
    &&& f.1 == FaultKind::ItdBandArity ==> key_of(f.2) == Some(Key::ItdBand) && line_words(
        lines[f.0 - 1],
    ).len() != 3
    &&& f.1 == FaultKind::ItdArity ==> key_of(f.2) == Some(Key::Itd) && line_words(
        lines[f.0 - 1],
    ).len() != 3
    &&& f.1 == FaultKind::IldBandArity ==> key_of(f.2) == Some(Key::IldBand) && line_words(
        lines[f.0 - 1],
    ).len() != 3
    &&& f.1 == FaultKind::IldArity ==> key_of(f.2) == Some(Key::Ild) && line_words(
        lines[f.0 - 1],
    ).len() != 3
    &&& f.1 == FaultKind::IldBeforeBand ==> key_of(f.2) == Some(Key::Ild) && line_words(
        lines[f.0 - 1],
    ).len() == 3
}

/// Every directive and the fault, if any, are read from their own line as
/// the grammar says.
pub proof fn law_directives_match_lines(lines: Seq<Seq<char>>, k: nat)
    requires
        k <= lines.len(),
    ensures
        forall|i: int|
            0 <= i < scan_lines(lines, k).0.len() ==> directive_matches_line(
                lines,
                #[trigger] scan_lines(lines, k).0[i],
            ),
        scan_lines(lines, k).1 matches Some(f) ==> fault_matches_line(lines, f),
    decreases k,
{
    if k > 0 {
        law_directives_match_lines(lines, (k - 1) as nat);
        let prev = scan_lines(lines, (k - 1) as nat);
        let cur = scan_lines(lines, k);
        if prev.1 is None {
            let ws = line_words(lines[k - 1]);
            match classify(ws, prev.2) {
                Ok(Some(d)) => {
                    assert(cur.0 == prev.0.push((k, d.0, d.1)));
                    assert forall|i: int| 0 <= i < cur.0.len() implies directive_matches_line(
                        lines,
                        #[trigger] cur.0[i],
                    ) by {
                        if i < prev.0.len() {
                            assert(cur.0[i] == prev.0[i]);
                        }
                    }
                },
                _ => {},
            }
        }
    }
}

/// No line with words is passed over: every line with words before the
/// fault, or every one when there is none, gives a directive.
pub proof fn law_every_worded_line_is_read(lines: Seq<Seq<char>>, k: nat)
    requires
        k <= lines.len(),
    ensures
        forall|m: int|
            1 <= m <= k && #[trigger] line_words(lines[m - 1]).len() > 0 && (scan_lines(
                lines,
                k,
            ).1 matches Some(f) ==> m < f.0) ==> exists|i: int|
                0 <= i < scan_lines(lines, k).0.len() && #[trigger] scan_lines(lines, k).0[i].0
                    == m,
    decreases k,
{
    if k > 0 {
        law_every_worded_line_is_read(lines, (k - 1) as nat);
        law_scan_in_line_order(lines, (k - 1) as nat);
        let prev = scan_lines(lines, (k - 1) as nat);
        let cur = scan_lines(lines, k);
        if prev.1 is None {
            let ws = line_words(lines[k - 1]);
            assert forall|i: int| 0 <= i < prev.0.len() implies #[trigger] cur.0[i] == prev.0[i] by {
                match classify(ws, prev.2) {
                    Ok(Some(d)) => {
                        assert(cur.0 == prev.0.push((k, d.0, d.1)));
                    },
                    _ => {},
                }
            }
            assert forall|m: int|
                1 <= m <= k && #[trigger] line_words(lines[m - 1]).len() > 0 && (cur.1 matches Some(
                    f,
                ) ==> m < f.0) implies exists|i: int|
                0 <= i < cur.0.len() && #[trigger] cur.0[i].0 == m by {
                if m < k {
                    assert(line_words(lines[m - 1]).len() > 0);
                    let i = choose|i: int| 0 <= i < prev.0.len() && #[trigger] prev.0[i].0 == m;
                    assert(cur.0[i] == prev.0[i]);
                } else {
                    match classify(ws, prev.2) {
                        Ok(Some(d)) => {
                            assert(cur.0 == prev.0.push((k, d.0, d.1)));
                            assert(cur.0[prev.0.len() as int].0 == m);
                        },
                        _ => {},
                    }
                }
            }
        }
    }
}

/// The count of nodes says what it counts: some entry is measured exactly
/// when the count is at least one, and two distinct entries are measured
/// exactly when it is at least two, which is when a plan exists.
pub proof fn law_node_count(known: Seq<bool>)
    ensures
        count_known(known) >= 1 <==> exists|i: int| 0 <= i < known.len() && #[trigger] known[i],
        count_known(known) >= 2 <==> exists|i: int, j: int|
            0 <= i < j < known.len() && #[trigger] known[i] && #[trigger] known[j],
    decreases known.len(),
{
    if known.len() > 0 {
        let init = known.drop_last();
        let last = known.len() - 1;
        law_node_count(init);
        assert forall|i: int| 0 <= i < init.len() implies #[trigger] init[i] == known[i] by {}
        if exists|i: int| 0 <= i < init.len() && #[trigger] init[i] {
            let i = choose|i: int| 0 <= i < init.len() && #[trigger] init[i];
            assert(known[i]);
        }
        if exists|i: int, j: int| 0 <= i < j < init.len() && #[trigger] init[i] && #[trigger] init[j] {
            let (i, j) = choose|i: int, j: int|
                0 <= i < j < init.len() && #[trigger] init[i] && #[trigger] init[j];
            assert(known[i] && known[j]);
        }
        if exists|i: int| 0 <= i < known.len() && #[trigger] known[i] {
            let i = choose|i: int| 0 <= i < known.len() && #[trigger] known[i];
            if i < last {
                assert(init[i]);
            }
        }
        if exists|i: int, j: int| 0 <= i < j < known.len() && #[trigger] known[i] && #[trigger] known[j] {
            let (i, j) = choose|i: int, j: int|
                0 <= i < j < known.len() && #[trigger] known[i] && #[trigger] known[j];
            assert(init[i]);
            if j < last {
                assert(init[j]);
            }
        }
        if known[last] && count_known(init) >= 1 {
            let i = choose|i: int| 0 <= i < init.len() && #[trigger] init[i];
            assert(known[i] && known[last]);
        }
    }
}

proof fn lemma_node_exists(known: Seq<bool>)
    requires
        count_known(known) > 0,
    ensures
        exists|j: int| 0 <= j < known.len() && #[trigger] known[j],
    decreases known.len(),
{
    if !known.last() {
        lemma_node_exists(known.drop_last());
        let j = choose|j: int| 0 <= j < known.len() - 1 && #[trigger] known.drop_last()[j];
        assert(known[j]);
    } else {
        assert(known[known.len() - 1]);
    }
}

proof fn lemma_node_before_is_last(known: Seq<bool>, i: int, m: int)
    requires
        0 <= i <= known.len(),
        node_before(known, i) < m < i,
    ensures
        !known[m],
    decreases i,
{
    if i > 0 && !known[i - 1] && m < i - 1 {
        lemma_node_before_is_last(known, i - 1, m);
    }
}

proof fn lemma_node_from_is_first(known: Seq<bool>, i: int, m: int)
    requires
        0 <= i <= known.len(),
        i <= m < node_from(known, i),
    ensures
        !known[m],
    decreases known.len() - i,
{
    if i < known.len() && !known[i] && m > i {
        lemma_node_from_is_first(known, i + 1, m);
    }
}

/// `f` completes entry `i` from the measured nodes around it: a measured
/// entry stays; an entry with measured nodes on both sides is interpolated
/// between the nearest node before and the nearest node after it, however
/// wide the gap; an entry with no node before it copies the nearest node
/// after it, and one with no node after it the nearest node before it.
pub open spec fn fills_from_neighbours(known: Seq<bool>, i: int, f: GapFill) -> bool {
    let before = exists|j: int| 0 <= j < i && #[trigger] known[j];
    let after = exists|j: int| i < j < known.len() && #[trigger] known[j];
    &&& (known[i] <==> f == GapFill::Known)
    &&& (!known[i] && before && after) ==> (f matches GapFill::Between(a, b) && a < i < b
        < known.len() && known[a as int] && known[b as int] && (forall|m: int|
        #![trigger known[m]]
        a < m < b ==> !known[m]))
    &&& (!known[i] && !before) ==> (f matches GapFill::Copy(b) && i < b < known.len()
        && known[b as int] && (forall|m: int| #![trigger known[m]] i <= m < b ==> !known[m]))
    &&& (!known[i] && !after) ==> (f matches GapFill::Copy(a) && a < i && known[a as int] && (
    forall|m: int| #![trigger known[m]] a < m <= i ==> !known[m]))
}

/// How each entry of a table is completed, by where the measured nodes
/// lie: see [`fills_from_neighbours`].
pub proof fn law_gap_fill_by_neighbours(known: Seq<bool>, i: int)
    requires
        count_known(known) >= 2,
        0 <= i < known.len() <= usize::MAX,
    ensures
        fills_from_neighbours(known, i, gap_fill(known, i)),
{
    lemma_node_before_range(known, i);
    lemma_node_from_range(known, i + 1);
    let a = node_before(known, i);
    let b = node_from(known, i + 1);
    assert forall|m: int| a < m < i implies !known[m] by {
        lemma_node_before_is_last(known, i, m);
    }
    assert forall|m: int| i + 1 <= m < b implies !known[m] by {
        lemma_node_from_is_first(known, i + 1, m);
    }
    let before = exists|j: int| 0 <= j < i && #[trigger] known[j];
    let after = exists|j: int| i < j < known.len() && #[trigger] known[j];
    if before {
        let j = choose|j: int| 0 <= j < i && #[trigger] known[j];
        assert(a >= 0);
    } else if a >= 0 {
        assert(known[a]);
    }
    if after {
        let j = choose|j: int| i < j < known.len() && #[trigger] known[j];
        assert(b < known.len());
    } else if b < known.len() {
        assert(known[b]);
    }
    if !known[i] && a < 0 && b >= known.len() {
        lemma_node_exists(known);
        let j = choose|j: int| 0 <= j < known.len() && #[trigger] known[j];
        if j < i {
            assert(!known[j]);
        } else if j > i {
            assert(!known[j]);
        }
    }
}

/// With at least two measured nodes, every entry of a table is completed
/// from measured nodes only: entries outside the measured range copy the
/// nearest node, and entries inside interpolate between the two nodes that
/// enclose them, with no node in between.
pub proof fn law_gap_fill_uses_nodes(known: Seq<bool>, i: int)
    requires
        count_known(known) >= 2,
        0 <= i < known.len() <= usize::MAX,
    ensures
        match gap_fill(known, i) {
            GapFill::Known => known[i],
            GapFill::Copy(j) => 0 <= j < known.len() && known[j as int] && j != i && (forall|m: int|
                #![trigger known[m]]
                (j < m <= i || i <= m < j) ==> !known[m]),
            GapFill::Between(a, b) => a < i < b < known.len() && known[a as int] && known[b as int]
                && forall|m: int| #![trigger known[m]] a < m < b ==> !known[m],
        },
{
    lemma_node_before_range(known, i);
    lemma_node_from_range(known, i + 1);
    let a = node_before(known, i);
    let b = node_from(known, i + 1);
    assert forall|m: int| a < m < i implies !known[m] by {
        lemma_node_before_is_last(known, i, m);
    }
    assert forall|m: int| i + 1 <= m < b implies !known[m] by {
        lemma_node_from_is_first(known, i + 1, m);
    }
    if !known[i] && a < 0 && b >= known.len() {
        lemma_node_exists(known);
        let j = choose|j: int| 0 <= j < known.len() && #[trigger] known[j];
        if j < i {
            assert(!known[j]);
        } else if j > i {
            assert(!known[j]);
        }
    }
}

/// Lines joined with line feeds.
pub open spec fn join_lines(ls: Seq<Seq<char>>) -> Seq<char>
    decreases ls.len(),
{
    if ls.len() == 0 {
        Seq::empty()
    } else if ls.len() == 1 {
        ls[0]
    } else {
        join_lines(ls.drop_last()) + seq!['\n'] + ls.last()
    }
}

/// `text` with everything from the first `#` of each line to the end of
/// that line deleted.
pub open spec fn without_comments(text: Seq<char>) -> Seq<char> {
    join_lines(split_lines(text).map_values(|l: Seq<char>| strip_comment(l)))
}

/// `s` holds no line feed.
pub open spec fn no_line_feed(s: Seq<char>) -> bool {
    forall|j: int| 0 <= j < s.len() ==> s[j] != '\n'
}

proof fn lemma_split_append(a: Seq<char>, b: Seq<char>)
    requires
        no_line_feed(b),
    ensures
        split_lines(a + b) == split_lines(a).update(
            split_lines(a).len() - 1,
            split_lines(a).last() + b,
        ),
    decreases b.len(),
{
    lemma_split_lines_nonempty(a);
    if b.len() == 0 {
        assert(a + b =~= a);
        assert(split_lines(a).last() + b =~= split_lines(a).last());
        assert(split_lines(a).update(split_lines(a).len() - 1, split_lines(a).last())
            =~= split_lines(a));
    } else {
        let bp = b.drop_last();
        assert((a + b).drop_last() =~= a + bp);
        assert((a + b).last() == b.last());
        assert(b.last() == b[b.len() - 1]);
        lemma_split_append(a, bp);
        let sa = split_lines(a);
        assert(sa.last() + bp + seq![b.last()] =~= sa.last() + b);
        assert(split_lines(a + bp).last() == sa.last() + bp);
        assert(split_lines(a + bp).last().push(b.last()) =~= sa.last() + b);
        assert(split_lines(a + b) =~= sa.update(sa.len() - 1, sa.last() + b));
    }
}

proof fn lemma_split_join(ls: Seq<Seq<char>>)
    requires
        ls.len() >= 1,
        forall|i: int| 0 <= i < ls.len() ==> no_line_feed(#[trigger] ls[i]),
    ensures
        split_lines(join_lines(ls)) == ls,
    decreases ls.len(),
{
    if ls.len() == 1 {
        lemma_split_append(Seq::empty(), ls[0]);
        assert(Seq::<char>::empty() + ls[0] =~= ls[0]);
        assert(split_lines(Seq::<char>::empty()) == seq![Seq::<char>::empty()]);
        assert(Seq::<char>::empty() + ls[0] =~= ls[0]);
        assert(split_lines(ls[0]) =~= ls);
    } else {
        let front = ls.drop_last();
        assert forall|i: int| 0 <= i < front.len() implies no_line_feed(#[trigger] front[i]) by {
            assert(front[i] == ls[i]);
        }
        lemma_split_join(front);
        let a = join_lines(front) + seq!['\n'];
        assert(a.drop_last() =~= join_lines(front));
        assert(split_lines(a) == split_lines(join_lines(front)).push(Seq::<char>::empty()));
        assert(no_line_feed(ls[ls.len() - 1]));
        lemma_split_append(a, ls.last());
        assert(join_lines(ls) == a + ls.last());
        assert(Seq::<char>::empty() + ls.last() =~= ls.last());
        assert(split_lines(join_lines(ls)) =~= ls);
    }
}

proof fn lemma_split_lines_no_line_feed(text: Seq<char>)
    ensures
        forall|i: int|
            0 <= i < split_lines(text).len() ==> no_line_feed(#[trigger] split_lines(text)[i]),
    decreases text.len(),
{
    if text.len() > 0 {
        lemma_split_lines_no_line_feed(text.drop_last());
        lemma_split_lines_nonempty(text.drop_last());
        let prev = split_lines(text.drop_last());
        if text.last() != '\n' {
            assert forall|i: int| 0 <= i < split_lines(text).len() implies no_line_feed(
                #[trigger] split_lines(text)[i],
            ) by {
                if i == prev.len() - 1 {
                    let l = prev.last().push(text.last());
                    assert(split_lines(text)[i] == l);
                    assert(no_line_feed(prev[i]));
                    assert forall|j: int| 0 <= j < l.len() implies l[j] != '\n' by {
                        if j < l.len() - 1 {
                            assert(l[j] == prev[i][j]);
                        }
                    }
                } else {
                    assert(split_lines(text)[i] == prev[i]);
                }
            }
        } else {
            assert forall|i: int| 0 <= i < split_lines(text).len() implies no_line_feed(
                #[trigger] split_lines(text)[i],
            ) by {
                if i < prev.len() {
                    assert(split_lines(text)[i] == prev[i]);
                }
            }
        }
    }
}

proof fn lemma_hash_index_props(line: Seq<char>)
    ensures
        hash_index(line) <= line.len(),
        forall|j: int| 0 <= j < hash_index(line) ==> line[j] != '#',
        hash_index(line) < line.len() ==> line[hash_index(line) as int] == '#',
    decreases line.len(),
{
    if line.len() > 0 && line[0] != '#' {
        let rest = line.drop_first();
        lemma_hash_index_props(rest);
        assert forall|j: int| 0 <= j < hash_index(line) implies line[j] != '#' by {
            if j > 0 {
                assert(line[j] == rest[j - 1]);
            }
        }
        if hash_index(line) < line.len() {
            assert(line[hash_index(line) as int] == rest[hash_index(rest) as int]);
        }
    }
}

proof fn lemma_strip_comment_twice(line: Seq<char>)
    ensures
        strip_comment(strip_comment(line)) == strip_comment(line),
        line_words(strip_comment(line)) == line_words(line),
{
    lemma_hash_index_props(line);
    let h = hash_index(line) as int;
    let s = line.take(h);
    assert forall|j: int| 0 <= j < h implies s[j] != '#' by {
        assert(s[j] == line[j]);
    }
    lemma_hash_index(s, h);
    assert(s.take(h) =~= s);
}

proof fn lemma_scan_same_words(a: Seq<Seq<char>>, b: Seq<Seq<char>>, k: nat)
    requires
        a.len() == b.len(),
        k <= a.len(),
        forall|i: int| 0 <= i < a.len() ==> #[trigger] line_words(a[i]) == line_words(b[i]),
    ensures
        scan_lines(a, k) == scan_lines(b, k),
    decreases k,
{
    if k > 0 {
        lemma_scan_same_words(a, b, (k - 1) as nat);
        assert(line_words(a[k - 1]) == line_words(b[k - 1]));
    }
}

/// Comments change nothing: deleting, on every line, everything from the
/// first `#` to the end of the line reads to the same directives and the
/// same end.
pub proof fn law_comments_are_ignored(text: Seq<char>)
    ensures
        scan_text(without_comments(text)) == scan_text(text),
{
    let lines = split_lines(text);
    let stripped = lines.map_values(|l: Seq<char>| strip_comment(l));
    lemma_split_lines_nonempty(text);
    lemma_split_lines_no_line_feed(text);
    assert forall|i: int| 0 <= i < stripped.len() implies no_line_feed(#[trigger] stripped[i]) by {
        lemma_hash_index_props(lines[i]);
        assert(no_line_feed(lines[i]));
        assert forall|j: int| 0 <= j < stripped[i].len() implies stripped[i][j] != '\n' by {
            assert(stripped[i][j] == lines[i][j]);
        }
    }
    lemma_split_join(stripped);
    assert forall|i: int| 0 <= i < stripped.len() implies #[trigger] line_words(stripped[i])
        == line_words(lines[i]) by {
        lemma_strip_comment_twice(lines[i]);
    }
    lemma_scan_same_words(stripped, lines, lines.len());
}

} // verus!
