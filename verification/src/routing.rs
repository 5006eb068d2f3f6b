//! The state of a walk along the path of a URL.

use vstd::prelude::*;
use vstd::string::*;
use vstd::utf8::{decode_utf8, encode_utf8, is_char_boundary};

verus! {

broadcast use vstd::utf8::encode_utf8_decode_utf8;

/// What `percent_encoding::percent_decode_str`, read as UTF-8 with every
/// ill-formed sequence replaced, makes of a text.
pub uninterp spec fn percent_decoded(s: Seq<char>) -> Seq<char>;

/// `percent_encoding::percent_decode_str` and `decode_utf8_lossy`: every `%`
/// with two hexadecimal digits behind it becomes the byte they spell, and the
/// bytes are read as UTF-8, U+FFFD standing in for what is no UTF-8.
#[verifier::external_body]
fn unescape(s: &str) -> (decoded: String)
    ensures
        decoded@ == percent_decoded(s@),
{
    percent_encoding::percent_decode_str(s).decode_utf8_lossy().to_string()
}

/// The stretches of `s` between slashes that are not empty, from position `i`
/// on; the stretch that `i` is in began at `start`.
pub open spec fn runs(s: Seq<char>, i: nat, start: nat) -> Seq<Seq<char>>
    decreases s.len() - i,
{
    if i >= s.len() {
        if start < s.len() {
            seq![s.subrange(start as int, s.len() as int)]
        } else {
            Seq::empty()
        }
    } else if s[i as int] == '/' {
        if start < i {
            seq![s.subrange(start as int, i as int)] + runs(s, i + 1, i + 1)
        } else {
            runs(s, i + 1, i + 1)
        }
    } else {
        runs(s, i + 1, start)
    }
}

/// The segments of a path: its stretches between slashes that are not empty.
pub open spec fn segments(s: Seq<char>) -> Seq<Seq<char>> {
    runs(s, 0, 0)
}

/// The parts `parts[from..]` with a slash between each two.
pub open spec fn slashed(parts: Seq<Seq<char>>, from: nat) -> Seq<char>
    decreases parts.len() - from,
{
    if from >= parts.len() {
        Seq::empty()
    } else if from + 1 == parts.len() {
        parts[from as int]
    } else {
        parts[from as int] + seq!['/'] + slashed(parts, from + 1)
    }
}

/// Where the cursor stands after `steps` more bytes: in the part and at the
/// byte that they lead to, past every part that they use up.
pub open spec fn forwarded(sizes: Seq<nat>, row: nat, steps: nat) -> (nat, nat)
    decreases sizes.len() - row,
{
    if row >= sizes.len() {
        (row, 0)
    } else if sizes[row as int] > steps {
        (row, steps)
    } else {
        forwarded(sizes, row + 1, (steps - sizes[row as int]) as nat)
    }
}

/// The size of a text in bytes, as `str::len` gives it.
pub open spec fn size_of(s: Seq<char>) -> nat {
    (encode_utf8(s).len() as usize) as nat
}

/// A path cut into its segments, with a cursor that matching moves along it.
pub struct PathState {
    pub parts: Vec<String>,
    /// The part that the cursor is in, and the byte of that part that it is at.
    pub cursor: (usize, usize),
    /// What the segments matched so far were named, each with its text.
    pub params: Vec<(String, String)>,
    /// Whether the path ended with a slash.
    pub end_slash: bool,
}

impl PathState {
    /// The texts of the parts.
    pub open spec fn texts(&self) -> Seq<Seq<char>> {
        Seq::new(self.parts.len() as nat, |i: int| self.parts[i]@)
    }

    /// The sizes of the parts in bytes.
    pub open spec fn sizes(&self) -> Seq<nat> {
        Seq::new(self.parts.len() as nat, |i: int| size_of(self.parts[i]@))
    }

    /// Within a part the cursor stands where a character begins.
    pub open spec fn wf(&self) -> bool {
        self.cursor.0 < self.parts.len() && self.cursor.1 < size_of(
            self.parts[self.cursor.0 as int]@,
        ) ==> is_char_boundary(
            encode_utf8(self.parts[self.cursor.0 as int]@),
            self.cursor.1 as int,
        )
    }

    /// What is left of the part that the cursor is in or, where nothing is
    /// left of it, the whole next part.
    pub open spec fn picked(&self) -> Option<Seq<char>> {
        if self.cursor.0 >= self.parts.len() {
            None
        } else {
            let bytes = encode_utf8(self.parts[self.cursor.0 as int]@);
            if self.cursor.1 >= size_of(self.parts[self.cursor.0 as int]@) {
                if self.cursor.0 + 1 < self.parts.len() {
                    Some(self.parts[self.cursor.0 + 1]@)
                } else {
                    None
                }
            } else {
                Some(decode_utf8(bytes.subrange(self.cursor.1 as int, bytes.len() as int)))
            }
        }
    }

    /// What is left of the path from the cursor on: what `picked` gives, the
    /// parts behind the cursor's part with a slash before each, and a slash at
    /// the end where the path ended with one.
    pub open spec fn rest(&self) -> Option<Seq<char>> {
        match self.picked() {
            None => None,
            Some(picked) => {
                let tail = if self.end_slash {
                    seq!['/']
                } else {
                    Seq::empty()
                };
                if self.cursor.0 + 1 >= self.parts.len() {
                    Some(picked + tail)
                } else {
                    Some(
                        picked + seq!['/'] + slashed(self.texts(), (self.cursor.0 + 1) as nat)
                            + tail,
                    )
                }
            },
        }
    }

    /// Cuts `url_path` into its segments, each percent-decoded, and puts the
    /// cursor at the start.
    pub fn new(url_path: &str) -> (state: PathState)
        ensures
            state.wf(),
            state.cursor == (0usize, 0usize),
            state.params.len() == 0,
            state.end_slash == (url_path@.len() > 0 && url_path@.last() == '/'),
            state.parts.len() == segments(url_path@).len(),
            forall|i: int|
                0 <= i < state.parts.len() ==> (#[trigger] state.parts[i])@ == percent_decoded(
                    segments(url_path@)[i],
                ),
    {
        let n = url_path.unicode_len();
        let end_slash = n > 0 && url_path.get_char(n - 1) == '/';
        let mut parts: Vec<String> = Vec::new();
        let mut start: usize = 0;
        let mut i: usize = 0;
        let ghost all = segments(url_path@);
        while i < n
            invariant
                n == url_path@.len(),
                start <= i <= n,
                parts.len() + runs(url_path@, i as nat, start as nat).len() == all.len(),
                forall|j: int|
                    0 <= j < parts.len() ==> (#[trigger] parts[j])@ == percent_decoded(all[j]),
                forall|j: int|
                    0 <= j < runs(url_path@, i as nat, start as nat).len() ==> runs(
                        url_path@,
                        i as nat,
                        start as nat,
                    )[j] == all[parts.len() + j],
            decreases n - i,
        {
            if url_path.get_char(i) == '/' {
                if start < i {
                    let ghost old_runs = runs(url_path@, i as nat, start as nat);
                    let ghost next_runs = runs(url_path@, (i + 1) as nat, (i + 1) as nat);
                    let part = unescape(url_path.substring_char(start, i));
                    proof {
                        assert(old_runs == seq![url_path@.subrange(start as int, i as int)]
                            + next_runs);
                        assert(old_runs[0] == url_path@.subrange(start as int, i as int));
                        assert forall|j: int| 0 <= j < next_runs.len() implies next_runs[j]
                            == all[parts.len() + 1 + j] by {
                            assert(next_runs[j] == old_runs[j + 1]);
                        }
                    }
                    parts.push(part);
                }
                start = i + 1;
            }
            i = i + 1;
        }
        if start < n {
            let part = unescape(url_path.substring_char(start, n));
            proof {
                assert(runs(url_path@, n as nat, start as nat)[0] == url_path@.subrange(
                    start as int,
                    n as int,
                ));
            }
            parts.push(part);
        }
        proof {
            if parts.len() > 0 {
                vstd::utf8::encode_utf8_valid_utf8(parts[0]@);
                vstd::utf8::is_char_boundary_start_end_of_seq(encode_utf8(parts[0]@));
            }
        }
        PathState { parts, cursor: (0, 0), params: Vec::new(), end_slash }
    }

    /// What is left of the part that the cursor is in or, where nothing is
    /// left of it, the whole next part.
    pub fn pick(&self) -> (r: Option<&str>)
        requires
            self.wf(),
        ensures
            match r {
                Some(s) => self.picked() == Some(s@),
                None => self.picked().is_none(),
            },
    {
        if self.cursor.0 >= self.parts.len() {
            return None;
        }
        let part = self.parts[self.cursor.0].as_str();
        if self.cursor.1 >= part.len() {
            let row = self.cursor.0 + 1;
            if row < self.parts.len() {
                Some(self.parts[row].as_str())
            } else {
                None
            }
        } else {
            let (_, left) = part.split_at(self.cursor.1);
            proof {
                let bytes = encode_utf8(self.parts[self.cursor.0 as int]@);
                assert(part@ == self.parts[self.cursor.0 as int]@);
                assert(encode_utf8(left@) == bytes.subrange(self.cursor.1 as int, bytes.len() as int));
                vstd::utf8::encode_utf8_decode_utf8(left@);
            }
            Some(left)
        }
    }

    /// What is left of the path from the cursor on.
    pub fn all_rest(&self) -> (r: Option<String>)
        requires
            self.wf(),
        ensures
            match r {
                Some(s) => self.rest() == Some(s@),
                None => self.rest().is_none(),
            },
    {
        let picked = match self.pick() {
            Some(picked) => picked,
            None => {
                return None;
            },
        };
        proof {
            reveal_strlit("/");
            assert("/"@ =~= seq!['/']);
        }
        let mut text = String::from_str(picked);
        let n = self.parts.len();
        if self.cursor.0 + 1 < n {
            let mut i: usize = self.cursor.0 + 1;
            text.append("/");
            while i < n
                invariant
                    "/"@ == seq!['/'],
                    n == self.parts.len(),
                    self.cursor.0 + 1 <= i <= n,
                    self.cursor.0 + 1 < n,
                    i < n ==> text@ + slashed(self.texts(), i as nat) == picked@ + seq!['/']
                        + slashed(self.texts(), (self.cursor.0 + 1) as nat),
                    i == n ==> text@ == picked@ + seq!['/'] + slashed(
                        self.texts(),
                        (self.cursor.0 + 1) as nat,
                    ),
                decreases n - i,
            {
                let ghost before = text@;
                text.append(self.parts[i].as_str());
                if i + 1 < n {
                    text.append("/");
                    proof {
                        assert(slashed(self.texts(), i as nat) == self.texts()[i as int] + seq!['/']
                            + slashed(self.texts(), (i + 1) as nat));
                        assert(text@ + slashed(self.texts(), (i + 1) as nat) =~= before + slashed(
                            self.texts(),
                            i as nat,
                        ));
                    }
                } else {
                    proof {
                        assert(slashed(self.texts(), i as nat) == self.texts()[i as int]);
                    }
                }
                i = i + 1;
            }
        }
        if self.end_slash {
            text.append("/");
        }
        proof {
            let got = self.rest().unwrap();
            assert(text@ =~= got);
        }
        Some(text)
    }

    /// Moves the cursor on by `steps` bytes, from part to part as each is used
    /// up. It stops behind the last part.
    pub fn forward(&mut self, steps: usize)
        requires
            old(self).wf(),
            steps + old(self).cursor.1 <= usize::MAX,
            ({
                let to = forwarded(
                    old(self).sizes(),
                    old(self).cursor.0 as nat,
                    (steps + old(self).cursor.1) as nat,
                );
                to.0 < old(self).parts.len() ==> is_char_boundary(
                    encode_utf8(old(self).parts[to.0 as int]@),
                    to.1 as int,
                )
            }),
        ensures
            final(self).wf(),
            old(self).cursor.0 >= old(self).parts.len() ==> *final(self) == *old(self),
            old(self).cursor.0 < old(self).parts.len() ==> (
                final(self).cursor.0 as nat,
                final(self).cursor.1 as nat,
            ) == forwarded(
                old(self).sizes(),
                old(self).cursor.0 as nat,
                (steps + old(self).cursor.1) as nat,
            ),
            *final(self) == (PathState { cursor: final(self).cursor, ..*old(self) }),
    {
        if self.cursor.0 >= self.parts.len() {
            return;
        }
        let ghost asked = steps;
        let mut left = steps + self.cursor.1;
        let ghost sizes = self.sizes();
        let ghost goal = forwarded(sizes, self.cursor.0 as nat, left as nat);
        while self.cursor.0 < self.parts.len()
            invariant
                asked == steps,
                old(self).cursor.0 < old(self).parts.len(),
                goal == forwarded(
                    old(self).sizes(),
                    old(self).cursor.0 as nat,
                    (asked + old(self).cursor.1) as nat,
                ),
                sizes == self.sizes(),
                *self == (PathState { cursor: self.cursor, ..*old(self) }),
                self.cursor.0 <= self.parts.len(),
                self.cursor.0 < self.parts.len() ==> forwarded(
                    sizes,
                    self.cursor.0 as nat,
                    left as nat,
                ) == goal,
                self.cursor.0 == self.parts.len() ==> goal == (self.cursor.0 as nat, 0nat)
                    && self.cursor.1 == 0,
                goal.0 < self.parts.len() ==> is_char_boundary(
                    encode_utf8(self.parts[goal.0 as int]@),
                    goal.1 as int,
                ),
            decreases self.parts.len() - self.cursor.0,
        {
            let part = self.parts[self.cursor.0].as_str();
            let size = part.len();
            assert(part@ == self.parts[self.cursor.0 as int]@);
            assert(size == sizes[self.cursor.0 as int]);
            proof {
                let row = self.cursor.0 as nat;
                assert(forwarded(sizes, row, left as nat) == if sizes[row as int] > left {
                    (row, left as nat)
                } else {
                    forwarded(sizes, row + 1, (left - sizes[row as int]) as nat)
                });
                if row + 1 == sizes.len() {
                    assert(forwarded(sizes, row + 1, (left - sizes[row as int]) as nat) == (
                        row + 1,
                        0nat,
                    ));
                }
            }
            if size > left {
                self.cursor.1 = left;
                assert((self.cursor.0 as nat, self.cursor.1 as nat) == goal);
                assert(goal == forwarded(
                    old(self).sizes(),
                    old(self).cursor.0 as nat,
                    (asked + old(self).cursor.1) as nat,
                ));
                return;
            } else {
                left = left - size;
                self.cursor = (self.cursor.0 + 1, 0);
            }
        }
    }

    /// Whether the cursor is behind the last part.
    pub fn is_ended(&self) -> (b: bool)
        ensures
            b == (self.cursor.0 >= self.parts.len()),
    {
        self.cursor.0 >= self.parts.len()
    }
}

} // verus!
