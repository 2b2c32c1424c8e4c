//! What the names of the recordings say: who is on them, and which one is the cloud master.
use vstd::prelude::*;

use crate::model::Participant;
use crate::offset::{law_decimal_is_read_back, number_of};
use crate::text::{
    chars_of, decimal, find, find_from, is_space, occurs_at, push_decimal, string_of, trim_bounds,
    trimmed,
};

verus! {

/// What `str::to_lowercase` makes of a text.
pub uninterp spec fn lowered(s: Seq<char>) -> Seq<char>;

/// The lower-case form of an ASCII letter; any other character itself.
pub open spec fn ascii_lower(c: char) -> char {
    if 'A' <= c <= 'Z' {
        (c as int + 32) as char
    } else {
        c
    }
}

pub open spec fn is_ascii_text(s: Seq<char>) -> bool {
    forall|i: int| 0 <= i < s.len() ==> (#[trigger] s[i] as int) < 128
}

pub open spec fn has_no_capital(s: Seq<char>) -> bool {
    forall|i: int| 0 <= i < s.len() ==> !('A' <= #[trigger] s[i] <= 'Z')
}

/// Calls `str::to_lowercase`, whose result depends on the text alone. On ASCII text it
/// replaces each upper-case letter by its lower-case form and changes nothing else. On any
/// text it leaves no upper-case ASCII letter; what else Unicode makes of other characters is
/// left open.
#[verifier::external_body]
fn lower(s: &str) -> (r: String)
    ensures
        r@ == lowered(s@),
        is_ascii_text(s@) ==> r@ == s@.map_values(|c: char| ascii_lower(c)),
        has_no_capital(r@),
{
    s.to_lowercase()
}

/// On this text, if it is ASCII, lowering replaces the upper-case letters.
pub open spec fn lowers_ascii(s: Seq<char>) -> bool {
    is_ascii_text(s) ==> lowered(s) == s.map_values(|c: char| ascii_lower(c))
}

pub open spec fn is_alphanumeric(c: char) -> bool {
    '0' <= c <= '9' || 'A' <= c <= 'Z' || 'a' <= c <= 'z'
}

/// The text with each row of other characters replaced by one dash.
pub open spec fn dashed(s: Seq<char>) -> Seq<char>
    decreases s.len(),
{
    if s.len() == 0 {
        Seq::empty()
    } else if is_alphanumeric(s.last()) {
        dashed(s.drop_last()).push(s.last())
    } else if s.len() > 1 && !is_alphanumeric(s[s.len() - 2]) {
        dashed(s.drop_last())
    } else {
        dashed(s.drop_last()).push('-')
    }
}

/// The text without the dashes at its two ends.
pub open spec fn undashed(s: Seq<char>) -> Seq<char>
    decreases s.len(),
{
    if s.len() > 0 && s[0] == '-' {
        undashed(s.drop_first())
    } else if s.len() > 0 && s.last() == '-' {
        undashed(s.drop_last())
    } else {
        s
    }
}

/// The slug of a text: its ASCII letters and digits, with one dash between two rows of
/// them.
pub open spec fn slug_of(s: Seq<char>) -> Seq<char> {
    undashed(dashed(s))
}

/// Letters, digits and single dashes.
pub open spec fn is_dashed(s: Seq<char>) -> bool {
    &&& forall|i: int| 0 <= i < s.len() ==> is_alphanumeric(#[trigger] s[i]) || s[i] == '-'
    &&& forall|i: int, j: int|
        0 <= i < s.len() && j == i + 1 && j < s.len() ==> #[trigger] s[i] != '-' || #[trigger] s[j]
            != '-'
}

/// Letters and digits, with single dashes between them.
pub open spec fn is_slug(s: Seq<char>) -> bool {
    is_dashed(s) && (s.len() > 0 ==> s[0] != '-' && s.last() != '-')
}

proof fn lemma_dashed(s: Seq<char>)
    ensures
        is_dashed(dashed(s)),
        dashed(s).len() > 0 <==> s.len() > 0,
        s.len() > 0 ==> (dashed(s).last() == '-' <==> !is_alphanumeric(s.last())),
    decreases s.len(),
{
    if s.len() > 0 {
        let t = s.drop_last();
        lemma_dashed(t);
        let (d, e) = (dashed(t), dashed(s));
        if t.len() > 0 {
            assert(t.last() == s[s.len() - 2]);
        }
        assert forall|i: int, j: int|
            0 <= i < e.len() && j == i + 1 && j < e.len() implies #[trigger] e[i] != '-'
            || #[trigger] e[j] != '-' by {
            if j < d.len() {
                assert(e[i] == d[i] && e[j] == d[j]);
            } else {
                assert(e[i] == d.last());
            }
        }
    }
}

proof fn lemma_undashed(s: Seq<char>)
    requires
        is_dashed(s),
    ensures
        is_slug(undashed(s)),
    decreases s.len(),
{
    if s.len() > 0 && s[0] == '-' {
        let t = s.drop_first();
        assert forall|i: int| 0 <= i < t.len() implies is_alphanumeric(#[trigger] t[i]) || t[i]
            == '-' by {
            assert(t[i] == s[i + 1]);
        }
        assert forall|i: int, j: int|
            0 <= i < t.len() && j == i + 1 && j < t.len() implies #[trigger] t[i] != '-'
            || #[trigger] t[j] != '-' by {
            assert(t[i] == s[i + 1] && t[j] == s[j + 1]);
        }
        lemma_undashed(t);
    } else if s.len() > 0 && s.last() == '-' {
        let t = s.drop_last();
        assert forall|i: int, j: int|
            0 <= i < t.len() && j == i + 1 && j < t.len() implies #[trigger] t[i] != '-'
            || #[trigger] t[j] != '-' by {
            assert(t[i] == s[i] && t[j] == s[j]);
        }
        lemma_undashed(t);
    }
}

proof fn lemma_dashed_stays(s: Seq<char>)
    requires
        is_dashed(s),
    ensures
        dashed(s) == s,
    decreases s.len(),
{
    if s.len() > 0 {
        let t = s.drop_last();
        assert forall|i: int, j: int|
            0 <= i < t.len() && j == i + 1 && j < t.len() implies #[trigger] t[i] != '-'
            || #[trigger] t[j] != '-' by {
            assert(t[i] == s[i] && t[j] == s[j]);
        }
        lemma_dashed_stays(t);
        let n = s.len() as int;
        assert(is_alphanumeric(s[n - 1]) || s[n - 1] == '-');
        if n > 1 {
            assert(s[n - 2] != '-' || s[n - 1] != '-');
            assert(is_alphanumeric(s[n - 2]) || s[n - 2] == '-');
        }
        assert(t.push(s.last()) =~= s);
    } else {
        assert(s =~= Seq::<char>::empty());
    }
}

/// A slug holds ASCII letters and digits, with single dashes between them and none at its
/// ends.
pub proof fn law_slug_shape(s: Seq<char>)
    ensures
        is_slug(slug_of(s)),
{
    lemma_dashed(s);
    lemma_undashed(dashed(s));
}

/// The slug of a slug is the slug itself.
pub proof fn law_slug_is_stable(s: Seq<char>)
    ensures
        is_slug(s) ==> slug_of(s) == s,
        slug_of(slug_of(s)) == slug_of(s),
{
    law_slug_shape(s);
    lemma_dashed_stays(slug_of(s));
    if is_slug(s) {
        lemma_dashed_stays(s);
    }
}

/// The positions of the ASCII letters and digits of a text.
pub open spec fn places(s: Seq<char>) -> Seq<int>
    decreases s.len(),
{
    if s.len() == 0 {
        Seq::empty()
    } else if is_alphanumeric(s.last()) {
        places(s.drop_last()).push(s.len() - 1)
    } else {
        places(s.drop_last())
    }
}

/// Two texts have the same ASCII letters and digits in the same order, and the same ones of
/// them stand next to each other.
pub open spec fn same_letters(s: Seq<char>, t: Seq<char>) -> bool {
    let (p, q) = (places(s), places(t));
    &&& p.len() == q.len()
    &&& forall|k: int| 0 <= k < p.len() ==> s[#[trigger] p[k]] == t[q[k]]
    &&& forall|j: int, k: int|
        0 <= j && k == j + 1 && k < p.len() ==> (#[trigger] p[k] == #[trigger] p[j] + 1 <==> q[k]
            == q[j] + 1)
}

proof fn lemma_places(s: Seq<char>)
    ensures
        forall|k: int|
            0 <= k < places(s).len() ==> 0 <= #[trigger] places(s)[k] < s.len() && is_alphanumeric(
                s[places(s)[k]],
            ),
    decreases s.len(),
{
    if s.len() > 0 {
        let t = s.drop_last();
        lemma_places(t);
        assert forall|k: int| 0 <= k < places(s).len() implies 0 <= #[trigger] places(s)[k]
            < s.len() && is_alphanumeric(s[places(s)[k]]) by {
            if k < places(t).len() {
                assert(places(t)[k] == places(s)[k]);
                assert(t[places(t)[k]] == s[places(t)[k]]);
            }
        }
    }
}

/// Whether the last letter or digit stands at the end is the same for a text and its dashed
/// form.
spec fn same_end(s: Seq<char>, t: Seq<char>) -> bool {
    places(s).len() > 0 && places(t).len() > 0 ==> (places(s).last() == s.len() - 1 <==> places(
        t,
    ).last() == t.len() - 1)
}

proof fn lemma_dashed_letters(s: Seq<char>)
    ensures
        same_letters(dashed(s), s),
        same_end(dashed(s), s),
    decreases s.len(),
{
    if s.len() > 0 {
        let t = s.drop_last();
        lemma_dashed_letters(t);
        let (d, e) = (dashed(t), dashed(s));
        lemma_places(t);
        lemma_places(d);
        let (pd, pt, pe, ps) = (places(d), places(t), places(e), places(s));
        let n = pt.len() as int;
        assert forall|k: int| 0 <= k < n implies d[#[trigger] pd[k]] == t[pt[k]] by {}
        if is_alphanumeric(s.last()) {
            assert(e.drop_last() =~= d);
            assert forall|k: int| 0 <= k < pe.len() implies e[#[trigger] pe[k]] == s[ps[k]] by {
                if k < n {
                    assert(pe[k] == pd[k] && ps[k] == pt[k]);
                    assert(d[pd[k]] == t[pt[k]]);
                }
            }
            assert forall|j: int, k: int| 0 <= j && k == j + 1 && k < pe.len() implies (
            #[trigger] pe[k] == #[trigger] pe[j] + 1 <==> ps[k] == ps[j] + 1) by {
                assert(pe[j] == pd[j] && ps[j] == pt[j]);
                if k < n {
                    assert(pe[k] == pd[k] && ps[k] == pt[k]);
                } else {
                    assert(pd.last() == pd[j] && pt.last() == pt[j]);
                }
            }
        } else {
            if e != d {
                assert(e.drop_last() =~= d);
            } else if t.len() > 0 {
                assert(t.last() == s[s.len() - 2]);
            }
            assert(pe == pd && ps == pt);
            assert forall|k: int| 0 <= k < pe.len() implies e[#[trigger] pe[k]] == s[ps[k]] by {
                assert(d[pd[k]] == t[pt[k]]);
            }
            if n > 0 {
                assert(pt[n - 1] == pt.last() && pd[n - 1] == pd.last());
                if pt.last() == t.len() - 1 {
                    assert(is_alphanumeric(t.last()));
                }
            }
        }
    }
}

/// Without something else at its front, a text's letters and digits all stand one earlier.
proof fn lemma_places_drop_first(s: Seq<char>)
    requires
        s.len() > 0,
        !is_alphanumeric(s[0]),
    ensures
        places(s.drop_first()) == places(s).map_values(|p: int| p - 1),
    decreases s.len(),
{
    let t = s.drop_first();
    let shift = |p: int| p - 1;
    if t.len() > 0 {
        let u = s.drop_last();
        lemma_places_drop_first(u);
        assert(u.drop_first() =~= t.drop_last());
        assert(t.last() == s.last());
        if is_alphanumeric(s.last()) {
            assert(places(s).map_values(shift) =~= places(u).map_values(shift).push(s.len() - 2));
        }
    } else {
        assert(s.drop_last() =~= Seq::<char>::empty());
        assert(places(s.drop_last()) =~= Seq::<int>::empty());
        assert(places(t) =~= places(s).map_values(shift));
    }
}

proof fn lemma_undashed_letters(d: Seq<char>, s: Seq<char>)
    requires
        same_letters(d, s),
    ensures
        same_letters(undashed(d), s),
    decreases d.len(),
{
    let (p, q) = (places(d), places(s));
    lemma_places(d);
    if d.len() > 0 && d[0] == '-' {
        let e = d.drop_first();
        lemma_places_drop_first(d);
        let r = places(e);
        assert forall|k: int| 0 <= k < r.len() implies e[#[trigger] r[k]] == s[q[k]] by {
            assert(r[k] == p[k] - 1);
            assert(d[p[k]] == s[q[k]]);
            assert(p[k] != 0);
        }
        assert forall|j: int, k: int| 0 <= j && k == j + 1 && k < r.len() implies (#[trigger] r[k]
            == #[trigger] r[j] + 1 <==> q[k] == q[j] + 1) by {
            assert(r[k] == p[k] - 1 && r[j] == p[j] - 1);
        }
        lemma_undashed_letters(e, s);
    } else if d.len() > 0 && d.last() == '-' {
        let e = d.drop_last();
        assert(places(e) == p);
        assert forall|k: int| 0 <= k < p.len() implies e[#[trigger] p[k]] == s[q[k]] by {
            assert(d[p[k]] == s[q[k]]);
            assert(is_alphanumeric(d[p[k]]));
        }
        lemma_undashed_letters(e, s);
    }
}

/// A slug keeps the ASCII letters and digits of the text, in their order, and a dash stands
/// between two of them exactly where something else stood between them.
pub proof fn law_slug_keeps_letters(s: Seq<char>)
    ensures
        same_letters(slug_of(s), s),
{
    lemma_dashed_letters(s);
    lemma_undashed_letters(dashed(s), s);
}

/// A slug without upper-case letters.
pub open spec fn is_lower_slug(s: Seq<char>) -> bool {
    is_slug(s) && has_no_capital(s)
}

proof fn lemma_slug_has_no_capital(s: Seq<char>)
    requires
        has_no_capital(s),
    ensures
        has_no_capital(slug_of(s)),
{
    let r = slug_of(s);
    law_slug_keeps_letters(s);
    lemma_places(s);
    assert forall|i: int| 0 <= i < r.len() implies !('A' <= #[trigger] r[i] <= 'Z') by {
        if is_alphanumeric(r[i]) {
            lemma_is_place(r, i);
            let k = choose|k: int| 0 <= k < places(r).len() && #[trigger] places(r)[k] == i;
            assert(r[places(r)[k]] == s[places(s)[k]]);
        }
    }
}

proof fn lemma_is_place(s: Seq<char>, i: int)
    requires
        0 <= i < s.len(),
        is_alphanumeric(s[i]),
    ensures
        exists|k: int| 0 <= k < places(s).len() && #[trigger] places(s)[k] == i,
    decreases s.len(),
{
    let t = s.drop_last();
    if i < t.len() {
        lemma_is_place(t, i);
        let k = choose|k: int| 0 <= k < places(t).len() && #[trigger] places(t)[k] == i;
        assert(places(s)[k] == i);
    } else {
        assert(places(s)[places(s).len() - 1] == i);
    }
}

fn alphanumeric(c: char) -> (r: bool)
    ensures
        r == is_alphanumeric(c),
{
    ('0' <= c && c <= '9') || ('A' <= c && c <= 'Z') || ('a' <= c && c <= 'z')
}

/// The slug of a text that is in lower case.
pub fn slug(text: &str) -> (r: String)
    ensures
        r@ == slug_of(text@),
{
    let s = chars_of(text);
    let mut out: Vec<char> = Vec::new();
    let mut dash = false;
    let mut i: usize = 0;
    assert(s@.take(0) =~= Seq::<char>::empty());
    while i < s.len()
        invariant
            i <= s@.len(),
            out@ == dashed(s@.take(i as int)),
            dash == (i > 0 && !is_alphanumeric(s@[i - 1])),
        decreases s@.len() - i,
    {
        proof {
            let t = s@.take(i + 1);
            assert(t.drop_last() =~= s@.take(i as int));
            assert(t.last() == s@[i as int]);
            if i > 0 {
                assert(t[t.len() - 2] == s@[i - 1]);
            }
        }
        let c: char = s[i];
        if alphanumeric(c) {
            out.push(c);
            dash = false;
        } else if !dash {
            out.push('-');
            dash = true;
        }
        i = i + 1;
    }
    assert(s@.take(i as int) =~= s@);
    let mut a: usize = 0;
    let mut b: usize = out.len();
    let ghost goal = undashed(out@);
    assert(out@.subrange(0, b as int) =~= out@);
    while a < b && out[a] == '-'
        invariant
            a <= b <= out@.len(),
            goal == undashed(out@.subrange(a as int, b as int)),
        ensures
            a < b ==> out@[a as int] != '-',
        decreases b - a,
    {
        assert(out@.subrange(a as int, b as int).drop_first() =~= out@.subrange(a + 1, b as int));
        a = a + 1;
    }
    while a < b && out[b - 1] == '-'
        invariant
            a <= b <= out@.len(),
            a < b ==> out@[a as int] != '-',
            goal == undashed(out@.subrange(a as int, b as int)),
        ensures
            a < b ==> out@[b - 1] != '-',
        decreases b - a,
    {
        assert(out@.subrange(a as int, b as int)[0] == out@[a as int]);
        assert(out@.subrange(a as int, b as int).drop_last() =~= out@.subrange(a as int, b - 1));
        b = b - 1;
    }
    string_of(out.as_slice(), a, b)
}

/// The slug of a text: lower-case ASCII letters and digits, with single dashes between them.
/// A text that already is one stays as it is.
pub fn slugify(s: &str) -> (r: String)
    ensures
        r@ == slug_of(lowered(s@)),
        lowers_ascii(s@),
        is_lower_slug(r@),
        is_lower_slug(s@) ==> r@ == s@,
{
    let low = lower(s);
    proof {
        law_slug_shape(low@);
        lemma_slug_has_no_capital(low@);
        if is_lower_slug(s@) {
            assert forall|i: int| 0 <= i < s@.len() implies (#[trigger] s@[i] as int) < 128 by {}
            assert(low@ =~= s@);
            law_slug_is_stable(s@);
        }
    }
    slug(low.as_str())
}

/// Slugging a text twice gives what slugging it once gives.
pub proof fn law_slugify_twice(s: &str, once: String, t: &str, twice: String)
    requires
        call_ensures(slugify, (s,), once),
        t@ == once@,
        call_ensures(slugify, (t,), twice),
    ensures
        twice@ == once@,
{
}

/// Which of a participant's two feeds a recording holds.
#[derive(Debug, Clone, Copy, PartialEq, Eq, Structural)]
pub enum Source {
    Webcam,
    Screen,
}

impl Source {
    pub open spec fn text(self) -> Seq<char> {
        match self {
            Source::Webcam => "webcam"@,
            Source::Screen => "screen"@,
        }
    }

    /// The token that marks such a recording.
    pub open spec fn token(self) -> Seq<char> {
        match self {
            Source::Webcam => "-webcam"@,
            Source::Screen => "-screen"@,
        }
    }

    fn as_text(self) -> (r: &'static str)
        ensures
            r@ == self.text(),
    {
        match self {
            Source::Webcam => "webcam",
            Source::Screen => "screen",
        }
    }

    fn as_token(self) -> (r: &'static str)
        ensures
            r@ == self.token(),
    {
        match self {
            Source::Webcam => "-webcam",
            Source::Screen => "-screen",
        }
    }
}

/// What a file is to the run.
#[derive(Debug)]
pub enum Kind {
    /// Not a video.
    Other,
    /// A candidate for the cloud master.
    Cloud,
    /// A participant's recording, with the participant's name as it stands in the file's.
    Local(Source, String),
}

/// `Kind` over mathematical values.
pub enum KindView {
    Other,
    Cloud,
    Local(Source, Seq<char>),
}

impl View for Kind {
    type V = KindView;

    open spec fn view(&self) -> KindView {
        match *self {
            Kind::Other => KindView::Other,
            Kind::Cloud => KindView::Cloud,
            Kind::Local(s, n) => KindView::Local(s, n@),
        }
    }
}

/// An extension of a video file, in lower case.
pub open spec fn is_video(ext: Seq<char>) -> bool {
    ext == "mp4"@ || ext == "mov"@ || ext == "mkv"@ || ext == "webm"@
}

/// Where the text behind the last occurrence of `pat` from `from` on begins.
pub open spec fn behind_last(s: Seq<char>, pat: Seq<char>, from: int) -> int
    decreases s.len() - from,
{
    match find_from(s, pat, from) {
        Some(p) => if from <= p && p + pat.len() <= s.len() && pat.len() > 0 {
            behind_last(s, pat, p + pat.len())
        } else {
            from
        },
        None => from,
    }
}

/// The participant's name in the part of a stem that comes before the source token: what
/// stands behind the show's name, which ends in `___-`.
pub open spec fn name_in(before: Seq<char>) -> Seq<char> {
    trimmed(before.subrange(behind_last(before, "___-"@, 0), before.len() as int))
}

/// The text with its ASCII letters in lower case.
pub open spec fn caseless(s: Seq<char>) -> Seq<char> {
    s.map_values(|c: char| ascii_lower(c))
}

/// What a file with this extension, in lower case, and this stem is. The source token is
/// found in any case, and the name is what is written.
pub open spec fn recognised(ext: Seq<char>, stem: Seq<char>) -> KindView {
    if !is_video(ext) {
        KindView::Other
    } else {
        match (find_from(caseless(stem), "-webcam"@, 0), find_from(caseless(stem), "-screen"@, 0)) {
            (Some(p), _) => KindView::Local(Source::Webcam, name_in(stem.take(p))),
            (None, Some(p)) => KindView::Local(Source::Screen, name_in(stem.take(p))),
            (None, None) => KindView::Cloud,
        }
    }
}

fn video(ext: &str) -> (r: bool)
    ensures
        r == is_video(ext@),
{
    let e = ext.to_string();
    e == "mp4".to_string() || e == "mov".to_string() || e == "mkv".to_string() || e
        == "webm".to_string()
}

/// The participant's name in the first `to` characters of a stem.
fn local_name(stem: &Vec<char>, to: usize) -> (r: String)
    requires
        to <= stem@.len(),
    ensures
        r@ == name_in(stem@.take(to as int)),
{
    proof {
        reveal_strlit("___-");
    }
    let before = string_of(stem.as_slice(), 0, to);
    let s = chars_of(before.as_str());
    assert(s@ =~= stem@.take(to as int));
    let mark = chars_of("___-");
    let n: usize = s.len();
    let mut from: usize = 0;
    let mut more = true;
    while more
        invariant
            from <= n,
            n == s@.len(),
            mark@ == "___-"@,
            mark@.len() == 4,
            more ==> behind_last(s@, mark@, 0) == behind_last(s@, mark@, from as int),
            !more ==> behind_last(s@, mark@, 0) == from,
        decreases s@.len() - from, if more {
                1int
            } else {
                0
            },
    {
        match find(s.as_slice(), mark.as_slice(), from) {
            Some(p) => {
                from = p + 4;
            },
            None => {
                more = false;
            },
        }
    }
    let (a, b) = trim_bounds(s.as_slice(), from, n);
    string_of(s.as_slice(), a, b)
}

/// The text with its ASCII letters in lower case.
fn lower_letters(s: &Vec<char>) -> (r: Vec<char>)
    ensures
        r@ == caseless(s@),
{
    let mut out: Vec<char> = Vec::new();
    let mut i: usize = 0;
    while i < s.len()
        invariant
            i <= s@.len(),
            out@ == caseless(s@.take(i as int)),
        decreases s@.len() - i,
    {
        let c: char = s[i];
        out.push(if 'A' <= c && c <= 'Z' { ((c as u8) + 32) as char } else { c });
        assert(caseless(s@.take(i + 1)) =~= caseless(s@.take(i as int)).push(ascii_lower(c)));
        i = i + 1;
    }
    assert(s@.take(i as int) =~= s@);
    out
}

/// What a file with this extension, in lower case, and this stem is. The source token is
/// found in any case, and the name is what is written.
pub fn recognise(ext: &str, stem: &str) -> (r: Kind)
    ensures
        r@ == recognised(ext@, stem@),
{
    if !video(ext) {
        return Kind::Other;
    }
    let s = chars_of(stem);
    let low = lower_letters(&s);
    let webcam = chars_of(Source::Webcam.as_token());
    if let Some(p) = find(low.as_slice(), webcam.as_slice(), 0) {
        return Kind::Local(Source::Webcam, local_name(&s, p));
    }
    let screen = chars_of(Source::Screen.as_token());
    if let Some(p) = find(low.as_slice(), screen.as_slice(), 0) {
        return Kind::Local(Source::Screen, local_name(&s, p));
    }
    Kind::Cloud
}

proof fn lemma_find_from(s: Seq<char>, pat: Seq<char>, from: int)
    requires
        0 <= from,
    ensures
        match find_from(s, pat, from) {
            Some(p) => from <= p && occurs_at(s, pat, p) && forall|q: int|
                from <= q < p ==> !#[trigger] occurs_at(s, pat, q),
            None => forall|q: int| from <= q ==> !#[trigger] occurs_at(s, pat, q),
        },
    decreases s.len() + 1 - from,
{
    if from + pat.len() <= s.len() && !occurs_at(s, pat, from) {
        lemma_find_from(s, pat, from + 1);
    }
}

/// The text at `p` is the first occurrence if there is none before `p`: one that reached
/// across `p` would have its first character twice.
proof fn lemma_found_behind(s: Seq<char>, pat: Seq<char>, p: int)
    requires
        0 <= p,
        pat.len() > 0,
        forall|k: int| 0 < k < pat.len() ==> #[trigger] pat[k] != pat[0],
        occurs_at(s, pat, p),
        forall|q: int| !#[trigger] occurs_at(s.take(p), pat, q),
    ensures
        find_from(s, pat, 0) == Some(p),
{
    lemma_find_from(s, pat, 0);
    assert(s[p] == pat[0]) by {
        assert(s.subrange(p, p + pat.len())[0] == s[p]);
    }
    assert forall|q: int| 0 <= q < p implies !#[trigger] occurs_at(s, pat, q) by {
        if occurs_at(s, pat, q) {
            let w = s.subrange(q, q + pat.len());
            if q + pat.len() > p {
                assert(w[p - q] == s[p]);
            } else {
                assert(s.take(p).subrange(q, q + pat.len()) =~= w);
                assert(occurs_at(s.take(p), pat, q));
            }
        }
    }
}

/// A mark whose last character is found only at its end is left behind where it was last
/// found.
proof fn lemma_behind_last(s: Seq<char>, pat: Seq<char>, from: int, end: int)
    requires
        0 <= from <= end <= s.len(),
        pat.len() > 0,
        forall|k: int| 0 <= k < pat.len() - 1 ==> #[trigger] pat[k] != pat.last(),
        from == end || from + pat.len() <= end && occurs_at(s, pat, end - pat.len()),
        forall|q: int| end <= q ==> !#[trigger] occurs_at(s, pat, q),
        end == 0 || s[end - 1] == pat.last(),
    ensures
        behind_last(s, pat, from) == end,
    decreases end - from,
{
    lemma_find_from(s, pat, from);
    if from < end {
        let n = pat.len() as int;
        let p = find_from(s, pat, from)->0;
        assert(p <= end - n);
        let w = s.subrange(p, p + n);
        assert(w[n - 1] == s[p + n - 1]);
        let v = s.subrange(end - n, end);
        if end - n < p + n && p + n < end {
            assert(v[p + n - 1 - (end - n)] == s[p + n - 1]);
        }
        lemma_behind_last(s, pat, p + n, end);
    }
}

/// What a recording is named after is read back from its file's name as it was written: the
/// name between the show's, which ends in `___-`, and the source token, which may be written
/// in any case. Neither mark may occur in the name, nor the token before it; a name with
/// `-webcam` anywhere is a webcam's; and the name has no white space at its ends.
pub proof fn law_name_is_read_back(
    ext: Seq<char>,
    show: Seq<char>,
    name: Seq<char>,
    token: Seq<char>,
    rest: Seq<char>,
    source: Source,
)
    requires
        is_video(ext),
        show.len() == 0 || occurs_at(show, "___-"@, show.len() - 4),
        caseless(token) == source.token(),
        forall|q: int| !#[trigger] occurs_at(name, "___-"@, q),
        forall|q: int| !#[trigger] occurs_at(caseless(show + name), source.token(), q),
        source is Screen ==> forall|q: int|
            !#[trigger] occurs_at(caseless(show + name + token + rest), "-webcam"@, q),
        name.len() > 0 ==> !is_space(name[0]) && !is_space(name.last()),
    ensures
        recognised(ext, show + name + token + rest) == KindView::Local(source, name),
{
    reveal_strlit("-webcam");
    reveal_strlit("-screen");
    reveal_strlit("___-");
    let stem = show + name + token + rest;
    let before = show + name;
    let low = caseless(stem);
    let pat = source.token();
    let p = before.len() as int;
    assert(stem.take(p) =~= before);
    assert(low.take(p) =~= caseless(before));
    assert(token.len() == pat.len());
    assert(low.subrange(p, p + pat.len()) =~= pat) by {
        assert forall|k: int| 0 <= k < pat.len() implies #[trigger] low[p + k] == pat[k] by {
            assert(stem[p + k] == token[k]);
            assert(caseless(token)[k] == pat[k]);
        }
    }
    lemma_found_behind(low, pat, p);
    lemma_find_from(low, "-webcam"@, 0);
    let mark = "___-"@;
    let end = show.len() as int;
    assert forall|q: int| end <= q implies !#[trigger] occurs_at(before, mark, q) by {
        if occurs_at(before, mark, q) {
            assert(name.subrange(q - end, q - end + 4) =~= before.subrange(q, q + 4));
            assert(occurs_at(name, mark, q - end));
        }
    }
    if end > 0 {
        assert(before.subrange(end - 4, end) =~= show.subrange(end - 4, end));
        assert(show.subrange(end - 4, end)[3] == show[end - 1]);
    }
    lemma_behind_last(before, mark, 0, end);
    assert(before.subrange(end, p) =~= name);
}

/// Underscores read as blanks.
pub open spec fn spaced(s: Seq<char>) -> Seq<char> {
    s.map_values(
        |c: char|
            if c == '_' {
                ' '
            } else {
                c
            },
    )
}

fn space_out(s: &str) -> (r: String)
    ensures
        r@ == spaced(s@),
{
    let chars = chars_of(s);
    let mut out = String::new();
    let mut i: usize = 0;
    while i < chars.len()
        invariant
            i <= chars@.len(),
            chars@ == s@,
            out@ == spaced(s@.take(i as int)),
        decreases chars@.len() - i,
    {
        let c: char = chars[i];
        out.push(if c == '_' { ' ' } else { c });
        assert(spaced(s@.take(i + 1)) =~= spaced(s@.take(i as int)).push(spaced(s@)[i as int]));
        i = i + 1;
    }
    assert(s@.take(i as int) =~= s@);
    out
}

/// A participant that has not been measured or aligned yet.
pub open spec fn is_participant(
    p: Participant,
    file: Seq<char>,
    source: Source,
    name: Seq<char>,
    slug: Seq<char>,
) -> bool {
    &&& p.id@ == slug + "-"@ + source.text()
    &&& p.name@ == spaced(name)
    &&& p.source@ == source.text()
    &&& p.file@ == file
    &&& p.duration == 0
    &&& p.offset_ns is None
    &&& p.drift is None
    &&& p.confidence is None
}

/// The participant of a recording, before it is measured and aligned.
pub fn participant(file: &str, source: Source, name: &str, slug: &str) -> (r: Participant)
    ensures
        is_participant(r, file@, source, name@, slug@),
{
    let mut id = slug.to_string();
    id.append("-");
    id.append(source.as_text());
    assert(id@ =~= slug@ + "-"@ + source.text());
    Participant {
        id,
        name: space_out(name),
        source: source.as_text().to_string(),
        file: file.to_string(),
        duration: 0,
        offset_ns: None,
        drift: None,
        confidence: None,
    }
}

/// Why a directory cannot be processed.
#[derive(Debug, Clone, Copy, PartialEq, Eq, Structural)]
pub enum ClassifyError {
    NoLocals,
    NoCloud,
    EmptyCloudFile,
}

impl ClassifyError {
    pub open spec fn text(self) -> Seq<char> {
        match self {
            ClassifyError::NoLocals =>
                "no local track recordings found (expected files with a -webcam or -screen token)"@,
            ClassifyError::NoCloud =>
                "no cloud recording found (expected one file without a -webcam/-screen token)"@,
            ClassifyError::EmptyCloudFile => "no cloud master file found"@,
        }
    }

    pub fn message(&self) -> (r: String)
        ensures
            r@ == self.text(),
    {
        match *self {
            ClassifyError::NoLocals =>
                "no local track recordings found (expected files with a -webcam or -screen token)".to_string(),
            ClassifyError::NoCloud =>
                "no cloud recording found (expected one file without a -webcam/-screen token)".to_string(),
            ClassifyError::EmptyCloudFile => "no cloud master file found".to_string(),
        }
    }
}

/// The cloud master and the local recordings that were found, or what is missing.
pub fn assemble(cloud: Option<String>, locals: Vec<Participant>) -> (r: Result<
    (String, Vec<Participant>),
    ClassifyError,
>)
    ensures
        r == (if locals@.len() == 0 {
            Err(ClassifyError::NoLocals)
        } else {
            match cloud {
                None => Err(ClassifyError::NoCloud),
                Some(c) => if c@.len() == 0 {
                    Err(ClassifyError::EmptyCloudFile)
                } else {
                    Ok((c, locals))
                },
            }
        }),
{
    if locals.len() == 0 {
        return Err(ClassifyError::NoLocals);
    }
    match cloud {
        None => Err(ClassifyError::NoCloud),
        Some(c) => if c.as_str().is_empty() {
            Err(ClassifyError::EmptyCloudFile)
        } else {
            Ok((c, locals))
        },
    }
}

/// A file of the input directory: its path, and its name without and of its extension.
#[derive(Debug, Clone)]
pub struct MediaFile {
    pub file: String,
    pub stem: String,
    pub extension: String,
}

pub open spec fn kind_of(f: MediaFile) -> KindView {
    recognised(lowered(f.extension@), f.stem@)
}

/// The positions of the participants' recordings among the first `n` files.
pub open spec fn locals_in(files: Seq<MediaFile>, n: int) -> Seq<int>
    decreases n,
{
    if n <= 0 {
        Seq::empty()
    } else if kind_of(files[n - 1]) is Local {
        locals_in(files, n - 1).push(n - 1)
    } else {
        locals_in(files, n - 1)
    }
}

/// The position of the first candidate for the cloud master among the first `n` files.
pub open spec fn cloud_in(files: Seq<MediaFile>, n: int) -> Option<int>
    decreases n,
{
    if n <= 0 {
        None
    } else {
        match cloud_in(files, n - 1) {
            Some(p) => Some(p),
            None => if kind_of(files[n - 1]) is Cloud {
                Some(n - 1)
            } else {
                None
            },
        }
    }
}

/// `p` is the participant of the recording `f`.
pub open spec fn is_participant_of(p: Participant, f: MediaFile) -> bool {
    match kind_of(f) {
        KindView::Local(source, name) => is_participant(
            p,
            f.file@,
            source,
            name,
            slug_of(lowered(name)),
        ),
        _ => false,
    }
}

/// What lowering makes of the texts of a file that are lowered.
pub open spec fn lowers_names(f: MediaFile) -> bool {
    &&& lowers_ascii(f.extension@)
    &&& kind_of(f) matches KindView::Local(_, name) ==> lowers_ascii(name)
}

/// Sorts the files of a directory into the cloud master and the participants' recordings:
/// a video with a `-webcam` or `-screen` token is a recording, and the first without one is
/// the cloud master.
pub fn classify(files: &[MediaFile]) -> (r: Result<(String, Vec<Participant>), ClassifyError>)
    ensures
        ({
            let locals = locals_in(files@, files@.len() as int);
            let cloud = cloud_in(files@, files@.len() as int);
            match r {
                Err(ClassifyError::NoLocals) => locals.len() == 0,
                Err(ClassifyError::NoCloud) => locals.len() > 0 && cloud is None,
                Err(ClassifyError::EmptyCloudFile) => locals.len() > 0 && cloud is Some
                    && files@[cloud->0].file@.len() == 0,
                Ok((file, ps)) => {
                    &&& locals.len() > 0
                    &&& cloud is Some
                    &&& file@ == files@[cloud->0].file@
                    &&& file@.len() > 0
                    &&& ps@.len() == locals.len()
                    &&& forall|k: int|
                        0 <= k < ps@.len() ==> is_participant_of(
                            #[trigger] ps@[k],
                            files@[locals[k]],
                        )
                },
            }
        }),
        forall|i: int| 0 <= i < files@.len() ==> lowers_names(#[trigger] files@[i]),
{
    let mut cloud: Option<String> = None;
    let mut found: Vec<Participant> = Vec::new();
    let mut i: usize = 0;
    while i < files.len()
        invariant
            i <= files@.len(),
            cloud is Some <==> cloud_in(files@, i as int) is Some,
            cloud matches Some(c) ==> c@ == files@[cloud_in(files@, i as int)->0].file@,
            found@.len() == locals_in(files@, i as int).len(),
            forall|k: int|
                0 <= k < found@.len() ==> is_participant_of(
                    #[trigger] found@[k],
                    files@[locals_in(files@, i as int)[k]],
                ),
            forall|k: int| 0 <= k < i ==> lowers_names(#[trigger] files@[k]),
        decreases files@.len() - i,
    {
        let f = &files[i];
        let ext = lower(f.extension.as_str());
        match recognise(ext.as_str(), f.stem.as_str()) {
            Kind::Other => {},
            Kind::Cloud => {
                if cloud.is_none() {
                    cloud = Some(f.file.clone());
                }
            },
            Kind::Local(source, name) => {
                let s = slugify(name.as_str());
                found.push(participant(f.file.as_str(), source, name.as_str(), s.as_str()));
            },
        }
        i = i + 1;
    }
    assemble(cloud, found)
}

/// A name for the output next to others: `stem.ext`, and from the second one on
/// `stem-k.ext`.
pub open spec fn candidate(stem: Seq<char>, ext: Seq<char>, k: int) -> Seq<char> {
    if k == 0 {
        stem + "."@ + ext
    } else {
        stem + "-"@ + decimal(k) + "."@ + ext
    }
}

/// The name that is tried in a directory after `k` others were taken.
pub fn candidate_name(stem: &str, ext: &str, k: u32) -> (r: String)
    ensures
        r@ == candidate(stem@, ext@, k as int),
{
    let mut out = stem.to_string();
    if k > 0 {
        out.append("-");
        push_decimal(&mut out, k as u128);
    }
    out.append(".");
    out.append(ext);
    assert(out@ =~= candidate(stem@, ext@, k as int));
    out
}

/// No name is tried twice.
pub proof fn law_candidates_differ(stem: Seq<char>, ext: Seq<char>, j: int, k: int)
    requires
        0 <= j < k,
    ensures
        candidate(stem, ext, j) != candidate(stem, ext, k),
{
    reveal_strlit("-");
    reveal_strlit(".");
    let (a, b) = (candidate(stem, ext, j), candidate(stem, ext, k));
    law_decimal_is_read_back(k);
    if j == 0 {
        assert(b.len() > a.len());
    } else {
        law_decimal_is_read_back(j);
        let at = stem.len() + 1;
        if a == b {
            assert(a.len() == stem.len() + 1 + decimal(j).len() + 1 + ext.len());
            assert(b.len() == stem.len() + 1 + decimal(k).len() + 1 + ext.len());
            let end = at + decimal(k).len();
            assert(a.subrange(at as int, end as int) =~= decimal(j));
            assert(b.subrange(at as int, end as int) =~= decimal(k));
            assert(number_of(decimal(j)) == number_of(decimal(k)));
        }
    }
}

/// An extension is that of a video if it is one of four.
pub proof fn law_video(ext: Seq<char>)
    ensures
        is_video(ext) <==> ext == "mp4"@ || ext == "mov"@ || ext == "mkv"@ || ext == "webm"@,
{
}

/// Reading underscores as blanks changes nothing else, and leaves no underscore.
pub proof fn law_spaced(s: Seq<char>, i: int)
    requires
        0 <= i < s.len(),
    ensures
        spaced(s).len() == s.len(),
        s[i] == '_' ==> spaced(s)[i] == ' ',
        s[i] != '_' ==> spaced(s)[i] == s[i],
{
}

/// A participant is known by the slug of the name and the source, and named as the file is,
/// with blanks for underscores.
pub proof fn law_participant(
    p: Participant,
    file: Seq<char>,
    source: Source,
    name: Seq<char>,
    slug: Seq<char>,
)
    requires
        is_participant(p, file, source, name, slug),
    ensures
        source is Webcam ==> p.id@ == slug + "-"@ + "webcam"@ && p.source@ == "webcam"@,
        source is Screen ==> p.id@ == slug + "-"@ + "screen"@ && p.source@ == "screen"@,
        p.name@.len() == name.len(),
        forall|i: int|
            0 <= i < name.len() && name[i] != '_' ==> #[trigger] p.name@[i] == name[i],
        forall|i: int| 0 <= i < name.len() && name[i] == '_' ==> #[trigger] p.name@[i] == ' ',
        p.file@ == file,
        p.offset_ns is None,
{
}

/// A file without the extension of a video is nothing to the run; a video is a recording if
/// one of the tokens is in its name, whatever the case, and otherwise the cloud master's.
pub proof fn law_recognised(ext: Seq<char>, stem: Seq<char>)
    ensures
        recognised(ext, stem) is Other <==> !(ext == "mp4"@ || ext == "mov"@ || ext == "mkv"@ || ext
            == "webm"@),
        recognised(ext, stem) is Local <==> is_video(ext) && ((exists|q: int| #[trigger]
            occurs_at(caseless(stem), "-webcam"@, q)) || (exists|q: int| #[trigger]
            occurs_at(caseless(stem), "-screen"@, q))),
        recognised(ext, stem) matches KindView::Local(s, _) ==> (s is Webcam <==> exists|q: int|
            #[trigger] occurs_at(caseless(stem), "-webcam"@, q)),
{
    let low = caseless(stem);
    lemma_find_from(low, "-webcam"@, 0);
    lemma_find_from(low, "-screen"@, 0);
}

/// Lowering letters leaves the length and everything that is no ASCII capital as it is.
pub proof fn law_caseless(s: Seq<char>, i: int)
    requires
        0 <= i < s.len(),
    ensures
        caseless(s).len() == s.len(),
        'A' <= s[i] <= 'Z' ==> caseless(s)[i] as int == s[i] as int + ('a' as int - 'A' as int),
        !('A' <= s[i] <= 'Z') ==> caseless(s)[i] == s[i],
{
}

/// All recordings among the files are found, each once and in order, and the cloud master is
/// the first video that is no recording.
pub proof fn law_files_are_sorted(files: Seq<MediaFile>, n: int)
    requires
        0 <= n <= files.len(),
    ensures
        forall|k: int|
            0 <= k < locals_in(files, n).len() ==> 0 <= #[trigger] locals_in(files, n)[k] < n
                && kind_of(files[locals_in(files, n)[k]]) is Local,
        forall|i: int|
            0 <= i < n && kind_of(#[trigger] files[i]) is Local ==> locals_in(files, n).contains(i),
        forall|j: int, k: int|
            0 <= j < k < locals_in(files, n).len() ==> #[trigger] locals_in(files, n)[j]
                < #[trigger] locals_in(files, n)[k],
        match cloud_in(files, n) {
            Some(p) => 0 <= p < n && kind_of(files[p]) is Cloud && forall|i: int|
                0 <= i < p ==> !(kind_of(#[trigger] files[i]) is Cloud),
            None => forall|i: int| 0 <= i < n ==> !(kind_of(#[trigger] files[i]) is Cloud),
        },
    decreases n,
{
    if n > 0 {
        law_files_are_sorted(files, n - 1);
        let (before, all) = (locals_in(files, n - 1), locals_in(files, n));
        assert forall|i: int| 0 <= i < n && kind_of(#[trigger] files[i]) is Local implies
            all.contains(i) by {
            if i < n - 1 {
                let k = choose|k: int| 0 <= k < before.len() && before[k] == i;
                assert(all[k] == i);
            } else {
                assert(all[all.len() - 1] == i);
            }
        }
        assert forall|j: int, k: int| 0 <= j < k < all.len() implies #[trigger] all[j]
            < #[trigger] all[k] by {
            assert(all[j] == before[j]);
            if k < before.len() {
                assert(all[k] == before[k]);
            }
        }
        assert forall|k: int| 0 <= k < all.len() implies 0 <= #[trigger] all[k] < n && kind_of(
            files[all[k]],
        ) is Local by {
            if k < before.len() {
                assert(all[k] == before[k]);
            }
        }
    }
}

/// What the tries for a free name look like.
pub proof fn law_candidate_names(stem: Seq<char>, ext: Seq<char>, k: int)
    ensures
        candidate(stem, ext, 0) == stem + "."@ + ext,
        k > 0 ==> candidate(stem, ext, k) == stem + "-"@ + decimal(k) + "."@ + ext,
{
}

/// A recording belongs to the participant whose name is in the file's: the name as it is
/// written, known by the slug of the name in lower case.
pub proof fn law_participant_of_a_recording(p: Participant, f: MediaFile)
    requires
        is_participant_of(p, f),
    ensures
        recognised(lowered(f.extension@), f.stem@) matches KindView::Local(source, name) && {
            &&& p.id@ == slug_of(lowered(name)) + "-"@ + source.text()
            &&& p.name@ == spaced(name)
            &&& p.file@ == f.file@
        },
{
}

} // verus!
