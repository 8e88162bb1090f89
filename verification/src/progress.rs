//! A progress spinner on a single line.
//!
//! It is drawn only on a terminal, so that output that is piped or captured
//! stays clean.
use crate::text::{decimal, to_decimal};
use vstd::prelude::*;
use vstd::string::*;

verus! {

/// The most characters of a label that are shown, so that the status fits one
/// row of a terminal.
pub const MAX_LABEL: usize = 48;

/// Returns to the start of the line and wipes it.
pub const CLEAR: &'static str = "\r\x1b[K";

/// The glyphs of the spinner, in turn.
pub open spec fn glyphs() -> Seq<Seq<char>> {
    seq!["⠋"@, "⠙"@, "⠹"@, "⠸"@, "⠼"@, "⠴"@, "⠦"@, "⠧"@, "⠇"@, "⠏"@]
}

/// The glyph that the spinner shows at its `n`th turn.
pub open spec fn glyph(n: int) -> Seq<char> {
    glyphs()[n % 10]
}

fn glyph_at(n: usize) -> (r: &'static str)
    ensures
        r@ == glyph(n as int),
{
    match n % 10 {
        0 => "⠋",
        1 => "⠙",
        2 => "⠹",
        3 => "⠸",
        4 => "⠼",
        5 => "⠴",
        6 => "⠦",
        7 => "⠧",
        8 => "⠇",
        _ => "⠏",
    }
}

/// A label as it is shown: one that is too long loses its end to an ellipsis.
pub open spec fn shortened(label: Seq<char>) -> Seq<char> {
    if label.len() > MAX_LABEL {
        label.take(MAX_LABEL - 1) + "…"@
    } else {
        label
    }
}

/// The count of finished entries once one more is finished: after the largest
/// number it starts over.
pub open spec fn counted(done: int) -> int {
    if done == usize::MAX {
        0
    } else {
        done + 1
    }
}

/// The count of finished entries once `n` more are finished, one by one.
pub open spec fn counted_times(done: int, n: nat) -> int
    decreases n,
{
    if n == 0 {
        done
    } else {
        counted(counted_times(done, (n - 1) as nat))
    }
}

/// How far the work on a number of entries has come.
pub struct Reporter {
    /// The number of entries.
    pub total: usize,
    /// Whether there is a terminal to draw on.
    pub tty: bool,
    /// The number of entries that are finished.
    pub done: usize,
    /// Whether the work is over.
    pub stop: bool,
    /// What is being worked on.
    pub label: String,
}

impl Reporter {
    /// The start of work on `total` entries.
    pub fn new(total: usize, tty: bool) -> (r: Reporter)
        ensures
            r.total == total,
            r.tty == tty,
            r.done == 0,
            !r.stop,
            r.label@ == Seq::<char>::empty(),
    {
        Reporter { total, tty, done: 0, stop: false, label: String::new() }
    }

    /// Whether there is something to draw and somewhere to draw it.
    pub fn animates(&self) -> (r: bool)
        ensures
            r == (self.total != 0 && self.tty),
    {
        self.total != 0 && self.tty
    }

    /// Says what is about to be worked on.
    pub fn set(&mut self, label: &str)
        ensures
            final(self).label@ == (if old(self).tty { shortened(label@) } else { old(self).label@ }),
            final(self).total == old(self).total,
            final(self).tty == old(self).tty,
            final(self).done == old(self).done,
            final(self).stop == old(self).stop,
    {
        if !self.tty {
            return;
        }
        let len: usize = label.unicode_len();
        if len > MAX_LABEL {
            let mut s = label.substring_char(0, MAX_LABEL - 1).to_owned();
            s.append("…");
            assert(label@.take(MAX_LABEL - 1) =~= label@.subrange(0, MAX_LABEL - 1));
            self.label = s;
        } else {
            self.label = label.to_owned();
        }
    }

    /// Counts one more entry as finished; the count starts over after the largest
    /// number.
    pub fn inc(&mut self)
        ensures
            final(self).done == counted(old(self).done as int),
            final(self).total == old(self).total,
            final(self).tty == old(self).tty,
            final(self).stop == old(self).stop,
            final(self).label@ == old(self).label@,
    {
        self.done = self.done.wrapping_add(1);
    }

    /// Ends the animation.
    pub fn finish(&mut self)
        ensures
            final(self).stop,
            final(self).total == old(self).total,
            final(self).tty == old(self).tty,
            final(self).done == old(self).done,
            final(self).label@ == old(self).label@,
    {
        self.stop = true;
    }

    /// What to write for a message to stand on a line of its own: on a terminal
    /// the spinner is wiped first.
    pub fn warn(&self, message: &str) -> (r: String)
        ensures
            r@ == (if self.tty { CLEAR@ + message@ + "\n"@ } else { message@ + "\n"@ }),
    {
        let mut r = if self.tty { CLEAR.to_owned() } else { String::new() };
        r.append(message);
        r.append("\n");
        proof {
            if !self.tty {
                assert(r@ =~= message@ + "\n"@);
            }
        }
        r
    }

    /// What to write at the `n`th turn of the spinner, until the work is over.
    pub fn frame(&self, n: usize) -> (r: Option<String>)
        ensures
            match r {
                Some(line) => !self.stop && line@ == CLEAR@ + glyph(n as int) + " cloning ["@ + decimal(
                    self.done as nat,
                ) + "/"@ + decimal(self.total as nat) + "] "@ + self.label@,
                None => self.stop,
            },
    {
        if self.stop {
            return None;
        }
        let mut r = CLEAR.to_owned();
        r.append(glyph_at(n));
        r.append(" cloning [");
        r.append(to_decimal(self.done as u64).as_str());
        r.append("/");
        r.append(to_decimal(self.total as u64).as_str());
        r.append("] ");
        r.append(self.label.as_str());
        Some(r)
    }
}

/// What to write at the `n`th turn of a spinner that shows a message.
pub fn message_frame(message: &str, n: usize) -> (r: String)
    ensures
        r@ == CLEAR@ + glyph(n as int) + " "@ + message@,
{
    let mut r = CLEAR.to_owned();
    r.append(glyph_at(n));
    r.append(" ");
    r.append(message);
    r
}

/// No entry is lost in the count: after `n` more it is higher by `n`, up to
/// starting over after the largest number, whatever the number of entries is.
pub proof fn lemma_count(done: int, n: nat)
    requires
        0 <= done <= usize::MAX,
    ensures
        counted_times(done, n) == (done + n) % (usize::MAX + 1),
    decreases n,
{
    let m = usize::MAX + 1;
    if n == 0 {
        vstd::arithmetic::div_mod::lemma_small_mod(done as nat, m as nat);
    } else {
        lemma_count(done, (n - 1) as nat);
        let before = (done + n - 1) % m;
        vstd::arithmetic::div_mod::lemma_mod_bound(done + n - 1, m);
        vstd::arithmetic::div_mod::lemma_add_mod_noop(done + n - 1, 1, m);
        vstd::arithmetic::div_mod::lemma_small_mod(1, m as nat);
        if before == usize::MAX {
            vstd::arithmetic::div_mod::lemma_mod_self_0(m);
        } else {
            vstd::arithmetic::div_mod::lemma_small_mod((before + 1) as nat, m as nat);
        }
    }
}

/// A label takes at most one row, whatever it is for, and a short one is shown
/// as it is.
pub proof fn lemma_label_fits(label: Seq<char>)
    ensures
        shortened(label).len() <= MAX_LABEL,
        label.len() <= MAX_LABEL ==> shortened(label) == label,
        label.len() > MAX_LABEL ==> shortened(label).len() == MAX_LABEL,
{
    reveal_strlit("…");
}

/// The ten glyphs of the spinner follow each other and then start over.
pub proof fn lemma_glyphs(n: int)
    requires
        n >= 0,
    ensures
        glyph(n + 10) == glyph(n),
        glyph(0) == "⠋"@,
        glyph(1) == "⠙"@,
        glyph(2) == "⠹"@,
        glyph(3) == "⠸"@,
        glyph(4) == "⠼"@,
        glyph(5) == "⠴"@,
        glyph(6) == "⠦"@,
        glyph(7) == "⠧"@,
        glyph(8) == "⠇"@,
        glyph(9) == "⠏"@,
{
}

/// A label that is too long is shown by its start and an ellipsis.
pub proof fn lemma_label_start(label: Seq<char>)
    ensures
        label.len() > 48 ==> shortened(label) == label.take(47).push('…'),
        label.len() <= 48 ==> shortened(label) == label,
{
    reveal_strlit("…");
    assert(label.take(MAX_LABEL - 1) + "…"@ =~= label.take(47).push('…'));
}

/// A frame starts at the beginning of a line that it wipes first.
pub proof fn lemma_wipes()
    ensures
        CLEAR@ == seq!['\r', '\u{1b}', '[', 'K'],
{
    reveal_strlit("\r\x1b[K");
}

} // verus!
