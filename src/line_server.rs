use vstd::prelude::*;
use crate::text::{chars_of, string_of, trim, trim_chars, trim_end, trim_end_len, contains, contains_exec, concat_str};
use crate::meaning::{normalize_tag_key, normalize_spec, split_tag_payload, split_spec, Verifier, db_meaning, hit_spec, pairs_view};

verus! {

/// `a` is `b` up to ASCII case, where `b` is written in small letters.
pub open spec fn eq_ascii_nocase(a: Seq<char>, b: Seq<char>) -> bool {
    a.len() == b.len() && forall|i: int|
        0 <= i < a.len() ==> (#[trigger] a[i] == b[i] || ('a' <= b[i] && b[i] <= 'z' && (a[i] as u32)
            + 32 == (b[i] as u32) as int))
}

fn eq_ascii_nocase_exec(a: &Vec<char>, b: &Vec<char>) -> (r: bool)
    ensures
        r == eq_ascii_nocase(a@, b@),
{
    if a.len() != b.len() {
        return false;
    }
    let mut i: usize = 0;
    while i < a.len()
        invariant
            a@.len() == b@.len(),
            i <= a@.len(),
            forall|k: int|
                0 <= k < i ==> (#[trigger] a@[k] == b@[k] || ('a' <= b@[k] && b@[k] <= 'z' && (a@[k] as u32)
                    + 32 == (b@[k] as u32) as int)),
        decreases a@.len() - i,
    {
        let c = a[i];
        let d = b[i];
        if !(c == d || ('a' <= d && d <= 'z' && (c as u32) == (d as u32) - 32)) {
            return false;
        }
        i = i + 1;
    }
    true
}

/// A tag that marks user input rather than model output: `user`,
/// `user-input` or `input`, trimmed, without regard to ASCII case.
pub open spec fn is_user_tag(tag: Seq<char>) -> bool {
    eq_ascii_nocase(trim(tag), "user"@) || eq_ascii_nocase(trim(tag), "user-input"@)
        || eq_ascii_nocase(trim(tag), "input"@)
}

/// Whether a tag marks user input (`user`, `user-input`, `input`).
pub fn is_user_input(tag: &str) -> (r: bool)
    ensures
        r == is_user_tag(tag@),
{
    let t = trim_chars(&chars_of(tag));
    eq_ascii_nocase_exec(&t, &chars_of("user")) || eq_ascii_nocase_exec(&t, &chars_of("user-input"))
        || eq_ascii_nocase_exec(&t, &chars_of("input"))
}

/// A character that ends a sentence: `。！？.!?`.
pub open spec fn ends_sentence(c: char) -> bool {
    c == '。' || c == '！' || c == '？' || c == '.' || c == '!' || c == '?'
}

/// Whether buffered model output is ready to be written: not blank, and
/// at least 180 characters long or ending a sentence (trailing whitespace
/// aside).
pub open spec fn ready_to_flush(s: Seq<char>) -> bool {
    let t = trim_end(s);
    t.len() > 0 && (t.len() >= 180 || ends_sentence(t.last()))
}

/// Whether buffered model output is ready to be written.
pub fn should_flush_buffer(s: &str) -> (r: bool)
    ensures
        r == ready_to_flush(s@),
{
    let v = chars_of(s);
    let n = trim_end_len(&v);
    if n == 0 {
        return false;
    }
    let t = crate::text::slice_of(&v, 0, n);
    if n >= 180 {
        return true;
    }
    let c = t[n - 1];
    c == '。' || c == '！' || c == '？' || c == '.' || c == '!' || c == '?'
}

/// Whether an API key looks usable: not blank, and not a placeholder
/// holding `...`.
pub fn valid_api_key(key: &str) -> (r: bool)
    ensures
        r == (trim(key@).len() > 0 && !contains(trim(key@), "..."@)),
{
    let t = trim_chars(&chars_of(key));
    let dots = chars_of("...");
    t.len() > 0 && !contains_exec(&t, &dots)
}

/// What the line server does after a line.
#[derive(Clone, Debug)]
pub struct LineStep {
    /// Records to append to the tagged log, in order, as (tag, payload).
    pub appends: Vec<(String, String)>,
    /// Close the connection and read no more lines.
    pub disconnect: bool,
}

/// One connection of the line server: model output is gathered under one
/// tag until a sentence ends, 180 characters gather, the tag changes, or the
/// user speaks; then it is checked against the meaning database and
/// written, or the connection is closed when it does not pass.
pub struct LineSession {
    ai_started: bool,
    ai_tag: String,
    buffer: String,
}

/// The state of a connection: whether model output has started, its
/// current tag, and what is buffered.
pub type LineState = (bool, Seq<char>, Seq<char>);

/// A payload passes the meaning check of `v` for a tag.
pub open spec fn passes(v: Verifier, tag: Seq<char>, payload: Seq<char>) -> bool {
    db_meaning(v.db(), tag) is None || hit_spec(v.db(), tag, payload) is Some
}

/// Writing out the buffer: nothing when it is blank or there is no tag;
/// else the record, or (when it fails the check) a stop.
pub open spec fn flush_spec(st: LineState, v: Verifier) -> (LineState, Seq<(Seq<char>, Seq<char>)>, bool) {
    if trim(st.2).len() == 0 || st.1.len() == 0 {
        (st, Seq::empty(), true)
    } else if !passes(v, st.1, st.2) {
        ((false, st.1, st.2), Seq::empty(), false)
    } else {
        ((st.0, st.1, Seq::empty()), seq![(st.1, st.2)], true)
    }
}

/// A line's effect: the next state, the records to write, and whether to
/// hang up. A blank line does nothing; a tag that normalizes to nothing
/// hangs up; a user tag writes out pending model output; model output
/// under a new tag first writes out the old tag's; the payload is then
/// buffered (after a space) and written out once it is ready.
pub open spec fn line_step(st: LineState, line: Seq<char>, v: Verifier) -> (LineState, Seq<(Seq<char>, Seq<char>)>, bool) {
    let t = trim(line);
    if t.len() == 0 {
        (st, Seq::empty(), false)
    } else {
        let payload = split_spec(t).1;
        match normalize_spec(split_spec(t).0) {
            None => (st, Seq::empty(), true),
            Some(tag) => if is_user_tag(tag) {
                if st.0 {
                    let f = flush_spec(st, v);
                    (f.0, f.1, !f.2)
                } else {
                    (st, Seq::empty(), false)
                }
            } else {
                let s1: LineState = if !st.0 { (true, tag, st.2) } else { st };
                let f1 = if s1.1 != tag {
                    let f = flush_spec(s1, v);
                    (if f.2 { (f.0.0, tag, f.0.2) } else { f.0 }, f.1, f.2)
                } else {
                    (s1, Seq::empty(), true)
                };
                if !f1.2 {
                    (f1.0, f1.1, true)
                } else {
                    let s2 = f1.0;
                    let buf = if s2.2.len() == 0 { payload } else { s2.2 + " "@ + payload };
                    let s3: LineState = (s2.0, s2.1, buf);
                    if ready_to_flush(buf) {
                        let f = flush_spec(s3, v);
                        (f.0, f1.1 + f.1, !f.2)
                    } else {
                        (s3, f1.1, false)
                    }
                }
            },
        }
    }
}

impl LineSession {
    /// Whether model output started, its tag, and the buffer.
    pub closed spec fn state(self) -> LineState {
        (self.ai_started, self.ai_tag@, self.buffer@)
    }

    /// A connection before any line.
    pub fn new() -> (r: LineSession)
        ensures
            r.state() == (false, Seq::<char>::empty(), Seq::<char>::empty()),
    {
        LineSession { ai_started: false, ai_tag: String::new(), buffer: String::new() }
    }

    fn flush(&mut self, verifier: &Verifier, appends: &mut Vec<(String, String)>) -> (ok: bool)
        ensures
            ({
                let f = flush_spec(old(self).state(), *verifier);
                &&& final(self).state() == f.0
                &&& pairs_view(final(appends)@) == pairs_view(old(appends)@) + f.1
                &&& ok == f.2
            }),
    {
        let blank = trim_chars(&chars_of(self.buffer.as_str())).len() == 0;
        if blank || self.ai_tag.as_str().is_empty() {
            assert(pairs_view(appends@) =~= pairs_view(appends@) + Seq::<(Seq<char>, Seq<char>)>::empty());
            return true;
        }
        if !verifier.verify_tag_payload(self.ai_tag.as_str(), self.buffer.as_str()) {
            self.ai_started = false;
            assert(pairs_view(appends@) =~= pairs_view(appends@) + Seq::<(Seq<char>, Seq<char>)>::empty());
            return false;
        }
        let payload = self.buffer.clone();
        self.buffer = String::new();
        let ghost before = appends@;
        appends.push((self.ai_tag.clone(), payload));
        assert(pairs_view(appends@) =~= pairs_view(before) + seq![(self.ai_tag@, payload@)]);
        true
    }

    /// Handles one line `tag<TAB>payload` (or `tag<SPACE>payload`).
    pub fn on_line(&mut self, line: &str, verifier: &Verifier) -> (r: LineStep)
        ensures
            ({
                let s = line_step(old(self).state(), line@, *verifier);
                &&& final(self).state() == s.0
                &&& pairs_view(r.appends@) == s.1
                &&& r.disconnect == s.2
            }),
    {
        let mut appends: Vec<(String, String)> = Vec::new();
        assert(pairs_view(appends@) =~= Seq::<(Seq<char>, Seq<char>)>::empty());
        let trimmed = trim_chars(&chars_of(line));
        if trimmed.len() == 0 {
            return LineStep { appends, disconnect: false };
        }
        let text = string_of(trimmed.as_slice());
        let (raw_tag, payload) = split_tag_payload(text.as_str());
        let tag = match normalize_tag_key(raw_tag.as_str()) {
            None => return LineStep { appends, disconnect: true },
            Some(t) => t,
        };
        if is_user_input(tag.as_str()) {
            if self.ai_started {
                let ok = self.flush(verifier, &mut appends);
                assert(pairs_view(appends@) =~= Seq::<(Seq<char>, Seq<char>)>::empty() + flush_spec(old(self).state(), *verifier).1);
                return LineStep { appends, disconnect: !ok };
            }
            return LineStep { appends, disconnect: false };
        }
        if !self.ai_started {
            self.ai_started = true;
            self.ai_tag = tag.clone();
        }
        let ghost s1 = self.state();
        if self.ai_tag != tag {
            if !self.flush(verifier, &mut appends) {
                assert(pairs_view(appends@) =~= Seq::<(Seq<char>, Seq<char>)>::empty() + flush_spec(s1, *verifier).1);
                return LineStep { appends, disconnect: true };
            }
            self.ai_tag = tag;
        }
        let ghost a1 = pairs_view(appends@);
        assert(a1 =~= (if s1.1 != tag@ { flush_spec(s1, *verifier).1 } else { Seq::empty() }));
        let joined = if self.buffer.as_str().is_empty() {
            payload
        } else {
            concat_str(concat_str(self.buffer.as_str(), " ").as_str(), payload.as_str())
        };
        self.buffer = joined;
        if should_flush_buffer(self.buffer.as_str()) {
            let ok = self.flush(verifier, &mut appends);
            return LineStep { appends, disconnect: !ok };
        }
        LineStep { appends, disconnect: false }
    }

    /// Handles the end of the connection: what is still buffered is
    /// written if it passes.
    pub fn on_close(&mut self, verifier: &Verifier) -> (r: Vec<(String, String)>)
        ensures
            old(self).state().0 ==> pairs_view(r@) == flush_spec(old(self).state(), *verifier).1
                && final(self).state() == flush_spec(old(self).state(), *verifier).0,
            !old(self).state().0 ==> r@.len() == 0 && final(self).state() == old(self).state(),
    {
        let mut appends: Vec<(String, String)> = Vec::new();
        if self.ai_started {
            let _ = self.flush(verifier, &mut appends);
            assert(pairs_view(appends@) =~= Seq::<(Seq<char>, Seq<char>)>::empty() + flush_spec(old(self).state(), *verifier).1);
        }
        appends
    }
}

} // verus!
