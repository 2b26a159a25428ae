//! Image session: the registry behind the agent-facing server.
//!
//! An agent opens images and gets opaque **handles** (`img-1`, `img-2`, …).
//! Every operation produces a NEW handle (images are immutable, mirroring the
//! engine's tiles), so an agent can branch a pipeline, compare, and export any
//! intermediate. Handles are minted from a counter that starts at 1, and a
//! handle names exactly the image it was minted for.

use vstd::prelude::*;

use crate::codecs::{CodecError, ImageFormat};
use crate::geometry::Size;
use crate::ops::{all_background, is_trim_of};
use crate::parse::DiffView;
use crate::pipeline::PipelineError;
use crate::tile::TiledImage;
use std::collections::HashMap;
use vstd::string::StringExecFns;
use vstd::string::StringSliceAdditionalSpecFns;

verus! {

broadcast use vstd::std_specs::hash::group_hash_axioms;

// ── handle text ──────────────────────────────────────────────────────────────

/// The decimal digit `d` (0–9) as a character.
pub open spec fn digit_char(d: int) -> char {
    (48 + d) as char
}

/// The decimal representation of `n`: no sign, no leading zeros.
pub open spec fn decimal_chars(n: nat) -> Seq<char>
    decreases n,
{
    if n < 10 {
        seq![digit_char(n as int)]
    } else {
        decimal_chars(n / 10).push(digit_char((n % 10) as int))
    }
}

/// The handle minted for counter value `n`: `img-` and `n` in decimal.
pub open spec fn handle_chars(n: nat) -> Seq<char> {
    seq!['i', 'm', 'g', '-'] + decimal_chars(n)
}

pub open spec fn is_digit(c: char) -> bool {
    48 <= (c as int) <= 57
}

pub open spec fn all_digits(s: Seq<char>) -> bool {
    forall|i: int| 0 <= i < s.len() ==> is_digit(#[trigger] s[i])
}

/// The number a string of decimal digits denotes.
pub open spec fn digits_value(s: Seq<char>) -> nat
    decreases s.len(),
{
    if s.len() == 0 {
        0
    } else {
        digits_value(s.drop_last()) * 10 + ((s.last() as int - 48) as nat)
    }
}

/// The counter value a handle text names, if it is a handle at all.
pub open spec fn handle_key(id: Seq<char>) -> Option<u64> {
    if exists|n: u64| id == handle_chars(n as nat) {
        Some(choose|n: u64| id == handle_chars(n as nat))
    } else {
        None
    }
}

proof fn lemma_decimal_shape(n: nat)
    ensures
        decimal_chars(n).len() >= 1,
        all_digits(decimal_chars(n)),
        decimal_chars(n)[0] == '0' <==> n == 0,
        digits_value(decimal_chars(n)) == n,
    decreases n,
{
    if n < 10 {
        assert(decimal_chars(n).drop_last() =~= Seq::<char>::empty());
        assert(digit_char(n as int) as int == 48 + n);
        assert(digits_value(Seq::<char>::empty()) == 0);
        assert(decimal_chars(n).last() == digit_char(n as int));
    } else {
        lemma_decimal_shape(n / 10);
        let s = decimal_chars(n / 10);
        assert(decimal_chars(n).drop_last() =~= s);
        assert(digit_char((n % 10) as int) as int == 48 + n % 10);
        assert(decimal_chars(n).last() == digit_char((n % 10) as int));
        assert(digits_value(decimal_chars(n)) == (n / 10) * 10 + n % 10);
        assert forall|i: int| 0 <= i < decimal_chars(n).len() implies is_digit(
            #[trigger] decimal_chars(n)[i],
        ) by {
            if i < s.len() {
                assert(decimal_chars(n)[i] == s[i]);
            }
        }
    }
}

/// A value's digits never exceed it when cut short.
proof fn lemma_prefix_value(s: Seq<char>, i: int)
    requires
        0 <= i <= s.len(),
        all_digits(s),
    ensures
        digits_value(s.take(i)) <= digits_value(s),
    decreases s.len(),
{
    if i < s.len() {
        let d = s.drop_last();
        assert(all_digits(d)) by {
            assert forall|j: int| 0 <= j < d.len() implies is_digit(#[trigger] d[j]) by {
                assert(d[j] == s[j]);
            }
        }
        lemma_prefix_value(d, i);
        assert(d.take(i) =~= s.take(i));
        assert(is_digit(s[s.len() - 1]));
    } else {
        assert(s.take(i) =~= s);
    }
}

proof fn lemma_value_positive(s: Seq<char>)
    requires
        s.len() >= 1,
        all_digits(s),
        s[0] != '0',
    ensures
        digits_value(s) >= 1,
{
    lemma_prefix_value(s, 1);
    assert(s.take(1).drop_last() =~= Seq::<char>::empty());
    assert(is_digit(s[0]));
}

/// Digits without a leading zero are the decimal representation of their value.
proof fn lemma_value_decimal(s: Seq<char>)
    requires
        s.len() >= 1,
        all_digits(s),
        s[0] != '0' || s.len() == 1,
    ensures
        decimal_chars(digits_value(s)) == s,
    decreases s.len(),
{
    let d = s.drop_last();
    let c = s.last();
    assert(is_digit(c));
    if s.len() == 1 {
        assert(d =~= Seq::<char>::empty());
        assert(digits_value(Seq::<char>::empty()) == 0);
        assert(s.last() == s[0]);
        assert(digits_value(s) == s[0] as int - 48);
        assert(digit_char(s[0] as int - 48) == s[0]);
        assert(decimal_chars(digits_value(s)) =~= s);
    } else {
        assert(all_digits(d)) by {
            assert forall|j: int| 0 <= j < d.len() implies is_digit(#[trigger] d[j]) by {
                assert(d[j] == s[j]);
            }
        }
        assert(d[0] == s[0]);
        lemma_value_decimal(d);
        lemma_value_positive(d);
        let v = digits_value(s);
        let a = digits_value(d);
        let k = c as int - 48;
        assert(v == a * 10 + k);
        assert(v / 10 == a && v % 10 == k) by (nonlinear_arith)
            requires
                v == a * 10 + k,
                0 <= k < 10,
                a >= 1,
        ;
        assert(decimal_chars(v) =~= s);
    }
}

/// A handle names exactly the counter value it was minted from: two counter
/// values give the same handle only if they are equal.
pub proof fn lemma_handle_key(n: u64)
    ensures
        handle_key(handle_chars(n as nat)) == Some(n),
{
    assert(exists|m: u64| handle_chars(n as nat) == handle_chars(m as nat));
    let m = choose|m: u64| handle_chars(n as nat) == handle_chars(m as nat);
    assert(decimal_chars(n as nat) =~= handle_chars(n as nat).subrange(4, handle_chars(n as nat).len() as int));
    assert(decimal_chars(m as nat) =~= handle_chars(m as nat).subrange(4, handle_chars(m as nat).len() as int));
    lemma_decimal_shape(n as nat);
    lemma_decimal_shape(m as nat);
}

/// The decimal digit `d` as a one-character text.
fn digit_text(d: u64) -> (t: &'static str)
    requires
        d < 10,
    ensures
        t@ == seq![digit_char(d as int)],
{
    match d {
        0 => {
            proof {
                reveal_strlit("0");
            }
            "0"
        },
        1 => {
            proof {
                reveal_strlit("1");
            }
            "1"
        },
        2 => {
            proof {
                reveal_strlit("2");
            }
            "2"
        },
        3 => {
            proof {
                reveal_strlit("3");
            }
            "3"
        },
        4 => {
            proof {
                reveal_strlit("4");
            }
            "4"
        },
        5 => {
            proof {
                reveal_strlit("5");
            }
            "5"
        },
        6 => {
            proof {
                reveal_strlit("6");
            }
            "6"
        },
        7 => {
            proof {
                reveal_strlit("7");
            }
            "7"
        },
        8 => {
            proof {
                reveal_strlit("8");
            }
            "8"
        },
        _ => {
            proof {
                reveal_strlit("9");
            }
            "9"
        },
    }
}

/// Append the decimal digits of `n` to `s`.
fn push_decimal(s: &mut String, n: u64)
    ensures
        final(s)@ == old(s)@ + decimal_chars(n as nat),
    decreases n,
{
    if n >= 10 {
        push_decimal(s, n / 10);
    }
    let ghost mid = s@;
    s.append(digit_text(n % 10));
    proof {
        if n >= 10 {
            assert(mid == old(s)@ + decimal_chars((n / 10) as nat));
            assert(decimal_chars(n as nat) == decimal_chars((n / 10) as nat).push(
                digit_char((n % 10) as int),
            ));
            assert(s@ =~= old(s)@ + decimal_chars(n as nat));
        } else {
            assert(s@ =~= old(s)@ + decimal_chars(n as nat));
        }
    }
}

/// The handle text for counter value `n`: `img-` and `n` in decimal.
fn handle_text(n: u64) -> (s: String)
    ensures
        s@ == handle_chars(n as nat),
{
    let mut s = "img-".to_owned();
    proof {
        reveal_strlit("img-");
    }
    push_decimal(&mut s, n);
    proof {
        assert(seq!['i', 'm', 'g', '-'] =~= "img-"@);
    }
    s
}

/// The counter value named by a handle text, `None` for anything that is not
/// a handle.
pub fn handle_number(id: &str) -> (r: Option<u64>)
    ensures
        r == handle_key(id@),
{
    broadcast use vstd::string::group_string_axioms;

    if !id.is_ascii() {
        proof {
            if exists|n: u64| id@ == handle_chars(n as nat) {
                let n = choose|n: u64| id@ == handle_chars(n as nat);
                lemma_decimal_shape(n as nat);
                assert(vstd::utf8::is_ascii_chars(id@)) by {
                    assert forall|i: int| 0 <= i < id@.len() implies '\0' <= #[trigger] id@[i]
                        <= '\u{7f}' by {
                        if i >= 4 {
                            assert(id@[i] == decimal_chars(n as nat)[i - 4]);
                            assert(is_digit(decimal_chars(n as nat)[i - 4]));
                        }
                    }
                }
            }
        }
        return None;
    }
    let b = id.as_bytes();
    let n = b.len();
    proof {
        assert(b@ =~= Seq::new(id@.len(), |i| id@[i] as u8));
        assert(n == id@.len());
        assert forall|i: int| 0 <= i < n implies (#[trigger] b@[i]) as int == id@[i] as int by {
            assert(b@[i] == id@[i] as u8);
            assert('\0' <= id@[i] <= '\u{7f}');
        }
    }
    if n < 5 || b[0] != 105 || b[1] != 109 || b[2] != 103 || b[3] != 45 || (b[4] == 48 && n > 5) {
        proof {
            if exists|m: u64| id@ == handle_chars(m as nat) {
                let m = choose|m: u64| id@ == handle_chars(m as nat);
                lemma_decimal_shape(m as nat);
                assert(id@[0] == 'i' && id@[1] == 'm' && id@[2] == 'g' && id@[3] == '-');
                assert(id@[4] == decimal_chars(m as nat)[0]);
                assert(b@[0] as int == 105);
                assert(b@[4] as int == 48 ==> decimal_chars(m as nat)[0] == '0');
            }
        }
        return None;
    }
    let ghost digits = id@.subrange(4, n as int);
    let mut acc: u64 = 0;
    let mut i: usize = 4;
    while i < n
        invariant
            4 <= i <= n,
            n == id@.len(),
            n == b@.len(),
            digits == id@.subrange(4, n as int),
            forall|j: int| 0 <= j < n ==> (#[trigger] b@[j]) as int == id@[j] as int,
            all_digits(digits.take(i - 4)),
            acc == digits_value(digits.take(i - 4)),
        decreases n - i,
    {
        let c = b[i];
        if c < 48 || c > 57 {
            proof {
                if exists|m: u64| id@ == handle_chars(m as nat) {
                    let m = choose|m: u64| id@ == handle_chars(m as nat);
                    lemma_decimal_shape(m as nat);
                    assert(id@[i as int] == decimal_chars(m as nat)[i - 4]);
                    assert(is_digit(decimal_chars(m as nat)[i - 4]));
                }
            }
            return None;
        }
        let d = (c - 48) as u64;
        let ghost next = digits.take(i - 3);
        proof {
            assert(next.drop_last() =~= digits.take(i - 4));
            assert(next.last() == id@[i as int]);
            assert(all_digits(next)) by {
                assert forall|j: int| 0 <= j < next.len() implies is_digit(#[trigger] next[j]) by {
                    if j < next.len() - 1 {
                        assert(next[j] == digits.take(i - 4)[j]);
                    }
                }
            }
        }
        if acc > (u64::MAX - d) / 10 {
            proof {
                assert(acc * 10 + d > u64::MAX) by (nonlinear_arith)
                    requires
                        acc > (u64::MAX - d) / 10,
                        d <= 9,
                ;
                if exists|m: u64| id@ == handle_chars(m as nat) {
                    let m = choose|m: u64| id@ == handle_chars(m as nat);
                    lemma_decimal_shape(m as nat);
                    assert(digits =~= decimal_chars(m as nat));
                    lemma_prefix_value(digits, i - 3);
                }
            }
            return None;
        }
        proof {
            assert(acc * 10 + d <= u64::MAX) by (nonlinear_arith)
                requires
                    acc <= (u64::MAX - d) / 10,
                    d <= 9,
            ;
        }
        acc = acc * 10 + d;
        i = i + 1;
    }
    proof {
        assert(digits.take(n - 4) =~= digits);
        assert(digits[0] == id@[4]);
        lemma_value_decimal(digits);
        assert(id@ =~= handle_chars(acc as nat));
        lemma_handle_key(acc);
    }
    Some(acc)
}

// ── session ──────────────────────────────────────────────────────────────────

/// A handle to an image living in the session, plus its dimensions.
#[derive(Debug, Clone, PartialEq, Eq)]
pub struct ImageRef {
    pub id: String,
    pub width: u32,
    pub height: u32,
}

#[derive(Debug)]
pub enum SessionError {
    /// Unknown image handle (open an image first, or use the id returned by a
    /// previous step).
    NotFound(String),
    /// Reading a file failed: the path and the reason.
    Read { path: String, reason: String },
    /// Writing a file failed: the path and the reason.
    Write { path: String, reason: String },
    Codec(CodecError),
    /// The operation is invalid for this image.
    Pipeline(PipelineError),
    /// The output format cannot be told from the path's extension.
    UnknownFormat(String),
    /// A collage needs at least one image.
    EmptyCollage,
    /// The image is a single uniform color: nothing would be left.
    NothingToTrim,
    /// This diff view needs both images to be the same size.
    SizeMismatch,
}

/// Two images with the same size and the same tiles (and so the same pixels
/// and tile identities).
pub open spec fn same_image<P>(a: TiledImage<P>, b: TiledImage<P>) -> bool {
    a.spec_size() == b.spec_size() && a.tile_refs() == b.tile_refs()
}

pub struct Session<P> {
    images: HashMap<u64, TiledImage<P>>,
    counter: u64,
}

impl<P: Copy> Session<P> {
    /// The live images, by the counter value of their handle.
    pub closed spec fn images(&self) -> Map<u64, TiledImage<P>> {
        self.images@
    }

    /// The counter value the next handle gets.
    pub closed spec fn next_key(&self) -> u64 {
        self.counter
    }

    /// Every live handle was minted before the counter's current value, and
    /// every live image is well formed.
    pub closed spec fn wf(&self) -> bool {
        &&& self.counter >= 1
        &&& forall|k: u64| #[trigger]
            self.images@.contains_key(k) ==> 1 <= k < self.counter && self.images@[k].wf()
    }

    /// The image a handle text names in this session.
    pub open spec fn lookup(&self, id: Seq<char>) -> Option<TiledImage<P>> {
        match handle_key(id) {
            Some(n) => if self.images().contains_key(n) {
                Some(self.images()[n])
            } else {
                None
            },
            None => None,
        }
    }

    /// After an image is stored under the next handle (what `insert` does), that
    /// handle names the stored image, and every other text names what it named before.
    pub proof fn lemma_lookup_after_insert(&self, after: &Self, img: TiledImage<P>)
        requires
            after.images() == self.images().insert(self.next_key(), img),
        ensures
            after.lookup(handle_chars(self.next_key() as nat)) == Some(img),
            forall|id: Seq<char>|
                id != handle_chars(self.next_key() as nat) ==> #[trigger] after.lookup(id)
                    == self.lookup(id),
    {
        lemma_handle_key(self.next_key());
        assert forall|id: Seq<char>| id != handle_chars(self.next_key() as nat) implies #[trigger]
            after.lookup(id) == self.lookup(id) by {
            if handle_key(id) is Some {
                let n = handle_key(id)->Some_0;
                assert(id == handle_chars(n as nat));
                assert(n != self.next_key());
            }
        }
    }

    pub fn new() -> (s: Self)
        ensures
            s.wf(),
            s.images() == Map::<u64, TiledImage<P>>::empty(),
            s.next_key() == 1,
    {
        Session { images: HashMap::new(), counter: 1 }
    }

    /// Number of live handles.
    pub fn len(&self) -> (n: usize)
        ensures
            n == self.images().len(),
    {
        self.images.len()
    }

    pub fn is_empty(&self) -> (b: bool)
        ensures
            b == (self.images().len() == 0),
    {
        proof {
            if self.images@.len() == 0 {
                assert(self.images@ =~= Map::<u64, TiledImage<P>>::empty());
            }
        }
        self.images.is_empty()
    }

    /// Whether another handle can be minted (the counter has not run out).
    pub fn has_room(&self) -> (b: bool)
        ensures
            b == (self.next_key() < u64::MAX),
    {
        self.counter < u64::MAX
    }

    /// Store an image under a fresh handle. Earlier handles keep their images.
    pub fn insert(&mut self, img: TiledImage<P>) -> (r: ImageRef)
        requires
            old(self).wf(),
            old(self).next_key() < u64::MAX,
            img.wf(),
        ensures
            final(self).wf(),
            !old(self).images().contains_key(old(self).next_key()),
            final(self).images() == old(self).images().insert(old(self).next_key(), img),
            final(self).next_key() == old(self).next_key() + 1,
            r.id@ == handle_chars(old(self).next_key() as nat),
            r.width == img.spec_size().width,
            r.height == img.spec_size().height,
    {
        let n = self.counter;
        let id = handle_text(n);
        let size = img.size();
        self.images.insert(n, img);
        self.counter = n + 1;
        ImageRef { id, width: size.width, height: size.height }
    }

    /// The image behind a handle.
    pub fn get(&self, id: &str) -> (r: Result<TiledImage<P>, SessionError>)
        requires
            self.wf(),
        ensures
            match self.lookup(id@) {
                Some(img) => r matches Ok(out) && same_image(out, img) && out.wf(),
                None => r matches Err(SessionError::NotFound(s)) && s@ == id@,
            },
    {
        match handle_number(id) {
            Some(n) => match self.images.get(&n) {
                Some(img) => Ok(img.clone()),
                None => Err(SessionError::NotFound(id.to_owned())),
            },
            None => Err(SessionError::NotFound(id.to_owned())),
        }
    }

    /// Dimensions of a handle without changing anything.
    pub fn info(&self, id: &str) -> (r: Result<ImageRef, SessionError>)
        requires
            self.wf(),
        ensures
            match self.lookup(id@) {
                Some(img) => r matches Ok(out) && out.id@ == id@ && out.width
                    == img.spec_size().width && out.height == img.spec_size().height,
                None => r matches Err(SessionError::NotFound(s)) && s@ == id@,
            },
    {
        let img = match self.get(id) {
            Ok(img) => img,
            Err(e) => return Err(e),
        };
        let s = img.size();
        Ok(ImageRef { id: id.to_owned(), width: s.width, height: s.height })
    }

    /// Auto-crop a uniform border → new handle. `background` marks, row-major,
    /// the pixels of the image that match the background reference. Errors when
    /// the whole image is background (there would be nothing left).
    pub fn trim(&mut self, id: &str, background: &[bool]) -> (r: Result<ImageRef, SessionError>)
        requires
            old(self).wf(),
            old(self).next_key() < u64::MAX,
            old(self).lookup(id@) matches Some(img) ==> background@.len() == img.spec_size().width
                * img.spec_size().height,
        ensures
            final(self).wf(),
            match old(self).lookup(id@) {
                None => r matches Err(SessionError::NotFound(s)) && s@ == id@ && final(self).images()
                    == old(self).images() && final(self).next_key() == old(self).next_key(),
                Some(img) => if all_background(img.spec_size(), background@) {
                    r matches Err(SessionError::NothingToTrim) && final(self).images()
                        == old(self).images() && final(self).next_key() == old(self).next_key()
                } else {
                    r matches Ok(out) && out.id@ == handle_chars(old(self).next_key() as nat)
                        && final(self).next_key() == old(self).next_key() + 1 && exists|t: TiledImage<P>|
                        {
                            &&& is_trim_of(img, background@, t)
                            &&& final(self).images() == old(self).images().insert(
                                old(self).next_key(),
                                t,
                            )
                            &&& out.width == t.spec_size().width
                            &&& out.height == t.spec_size().height
                        }
                },
            },
    {
        let img = match self.get(id) {
            Ok(img) => img,
            Err(e) => return Err(e),
        };
        let ghost orig = self.lookup(id@).unwrap();
        let mask_len = background.len();
        proof {
            img.lemma_wf_tiles();
        }
        match crate::ops::trim(&img, background) {
            Some(out) => {
                proof {
                    assert(img.pixel_at(0, 0) == orig.pixel_at(0, 0));
                    assert(is_trim_of(orig, background@, out));
                }
                let r = self.insert(out);
                Ok(r)
            },
            None => Err(SessionError::NothingToTrim),
        }
    }

    /// The two images a diff compares. `Difference` and `Heatmap` need them
    /// to be the same size; `SideBySide` accepts any.
    pub fn diff_inputs(&self, a_id: &str, b_id: &str, view: DiffView) -> (r: Result<
        (TiledImage<P>, TiledImage<P>),
        SessionError,
    >)
        requires
            self.wf(),
        ensures
            match (self.lookup(a_id@), self.lookup(b_id@)) {
                (None, _) => r matches Err(SessionError::NotFound(s)) && s@ == a_id@,
                (Some(_), None) => r matches Err(SessionError::NotFound(s)) && s@ == b_id@,
                (Some(a), Some(b)) => if view != DiffView::SideBySide && a.spec_size()
                    != b.spec_size() {
                    r matches Err(SessionError::SizeMismatch)
                } else {
                    r matches Ok((x, y)) && same_image(x, a) && same_image(y, b) && x.wf()
                        && y.wf()
                },
            },
    {
        let a = match self.get(a_id) {
            Ok(img) => img,
            Err(e) => return Err(e),
        };
        let b = match self.get(b_id) {
            Ok(img) => img,
            Err(e) => return Err(e),
        };
        let sa = a.size();
        let sb = b.size();
        let same_size = sa.width == sb.width && sa.height == sb.height;
        match view {
            DiffView::SideBySide => Ok((a, b)),
            _ => if same_size {
                Ok((a, b))
            } else {
                Err(SessionError::SizeMismatch)
            },
        }
    }

    /// The images a collage arranges, in order.
    pub fn collage_inputs(&self, ids: &[String]) -> (r: Result<Vec<TiledImage<P>>, SessionError>)
        requires
            self.wf(),
        ensures
            ids@.len() == 0 ==> r matches Err(SessionError::EmptyCollage),
            ids@.len() > 0 ==> match r {
                Ok(v) => v@.len() == ids@.len() && forall|i: int|
                    0 <= i < ids@.len() ==> ((#[trigger] self.lookup(ids@[i]@)) matches Some(img)
                        && same_image(v@[i], img) && v@[i].wf()),
                Err(SessionError::NotFound(s)) => exists|i: int|
                    0 <= i < ids@.len() && s@ == ids@[i]@ && self.lookup(ids@[i]@) is None
                        && forall|j: int| 0 <= j < i ==> #[trigger] self.lookup(ids@[j]@) is Some,
                Err(_) => false,
            },
    {
        if ids.len() == 0 {
            return Err(SessionError::EmptyCollage);
        }
        let mut v: Vec<TiledImage<P>> = Vec::new();
        let mut i: usize = 0;
        while i < ids.len()
            invariant
                self.wf(),
                0 <= i <= ids@.len(),
                v@.len() == i,
                forall|j: int|
                    0 <= j < i ==> ((#[trigger] self.lookup(ids@[j]@)) matches Some(img)
                        && same_image(v@[j], img) && v@[j].wf()),
            decreases ids@.len() - i,
        {
            match self.get(ids[i].as_str()) {
                Ok(img) => v.push(img),
                Err(e) => {
                    proof {
                        assert(self.lookup(ids@[i as int]@) is None);
                    }
                    return Err(e);
                },
            }
            i = i + 1;
        }
        Ok(v)
    }
}

/// The output format of an export path, told from its extension.
pub fn export_format(path: &str) -> (r: Result<ImageFormat, SessionError>)
    ensures
        match crate::codecs::path_extension(path.spec_bytes()) {
            Some(ext) => match crate::codecs::format_for_extension(ext) {
                Some(f) => r matches Ok(g) && g == f,
                None => r matches Err(SessionError::UnknownFormat(s)) && s@ == path@,
            },
            None => r matches Err(SessionError::UnknownFormat(s)) && s@ == path@,
        },
{
    match ImageFormat::from_path(path) {
        Some(f) => Ok(f),
        None => Err(SessionError::UnknownFormat(path.to_owned())),
    }
}

} // verus!
