//! The login screen's state: input fields, focus, the keys that edit and
//! move between them, and where the fields lie on the screen.
use vstd::prelude::*;

verus! {

/// Longest input a field takes.
pub const MAX_INPUT: usize = 64;

/// One input field: its bytes and whether it is shown masked.
pub struct Field {
    buf: Vec<u8>,
    mask: bool,
}

impl View for Field {
    type V = Seq<u8>;

    closed spec fn view(&self) -> Seq<u8> {
        self.buf@
    }
}

impl Field {
    pub closed spec fn masked(&self) -> bool {
        self.mask
    }

    /// A field's text never exceeds `MAX_INPUT` bytes.
    pub open spec fn wf(&self) -> bool {
        self@.len() <= MAX_INPUT
    }

    pub fn new(mask: bool) -> (r: Field)
        ensures
            r@ == Seq::<u8>::empty(),
            r.masked() == mask,
            r.wf(),
    {
        Field { buf: Vec::new(), mask }
    }

    pub fn len(&self) -> (r: usize)
        ensures
            r == self@.len(),
    {
        self.buf.len()
    }

    pub fn clear(&mut self)
        ensures
            final(self)@ == Seq::<u8>::empty(),
            final(self).masked() == old(self).masked(),
    {
        self.buf = Vec::new();
    }

    /// Appends `c` unless the field is full.
    pub fn push(&mut self, c: u8)
        requires
            old(self).wf(),
        ensures
            final(self).wf(),
            final(self).masked() == old(self).masked(),
            old(self)@.len() < MAX_INPUT ==> final(self)@ == old(self)@.push(c),
            old(self)@.len() >= MAX_INPUT ==> final(self)@ == old(self)@,
    {
        if self.buf.len() < MAX_INPUT {
            self.buf.push(c);
        }
    }

    /// Removes the last byte, if any.
    pub fn pop(&mut self)
        ensures
            final(self).masked() == old(self).masked(),
            old(self)@.len() > 0 ==> final(self)@ == old(self)@.drop_last(),
            old(self)@.len() == 0 ==> final(self)@ == old(self)@,
    {
        if self.buf.len() > 0 {
            self.buf.pop();
        }
    }

    /// The text typed, or "" when it is not UTF-8.
    pub fn as_string(&self) -> (r: String)
        ensures
            vstd::utf8::valid_utf8(self@) ==> r@ == vstd::utf8::decode_utf8(self@),
            !vstd::utf8::valid_utf8(self@) ==> r@.len() == 0,
    {
        match crate::text::utf8_to_string(self.buf.as_slice()) {
            Some(s) => s,
            None => String::new(),
        }
    }

    /// What the field shows: its bytes, or a '*' for each when masked.
    pub fn display(&self) -> (r: Vec<u8>)
        ensures
            r@.len() == self@.len(),
            forall|i: int| 0 <= i < r@.len() ==> #[trigger] r@[i] == if self.masked() { 42u8 } else { self@[i] },
    {
        let mut out: Vec<u8> = Vec::new();
        let mut i: usize = 0;
        while i < self.buf.len()
            invariant
                i <= self.buf@.len(),
                out@.len() == i,
                forall|k: int| 0 <= k < i ==> #[trigger] out@[k] == if self.mask { 42u8 } else { self.buf@[k] },
            decreases self.buf@.len() - i,
        {
            out.push(if self.mask { 42u8 } else { self.buf[i] });
            i = i + 1;
        }
        out
    }
}

/// Which field has the focus.
#[derive(PartialEq, Eq, Structural, Clone, Copy, Debug)]
pub enum Focus {
    User,
    Pass,
    Confirm,
}

/// The field Tab moves to: user, password, (confirmation when setting
/// up), back to user.
pub open spec fn tab_next(f: Focus, setup: bool) -> Focus {
    match f {
        Focus::User => Focus::Pass,
        Focus::Pass => if setup { Focus::Confirm } else { Focus::User },
        Focus::Confirm => Focus::User,
    }
}

pub fn next_focus(f: Focus, setup: bool) -> (r: Focus)
    ensures
        r == tab_next(f, setup),
{
    match f {
        Focus::User => Focus::Pass,
        Focus::Pass => if setup { Focus::Confirm } else { Focus::User },
        Focus::Confirm => Focus::User,
    }
}

/// The login form: three fields, the focus, and whether the first account
/// is being set up.
pub struct LoginForm {
    pub user: Field,
    pub pass: Field,
    pub confirm: Field,
    pub focus: Focus,
    pub setup: bool,
}

/// What a key asks of the screen.
#[derive(PartialEq, Eq, Structural, Clone, Copy, Debug)]
pub enum KeyOutcome {
    /// The key changed nothing shown.
    Ignored,
    /// The form changed; redraw it.
    Redraw,
    /// Enter on the last field: create the account or check the login.
    Submit,
}

impl LoginForm {
    pub open spec fn wf(&self) -> bool {
        self.user.wf() && self.pass.wf() && self.confirm.wf()
    }

    pub fn new(setup: bool) -> (r: LoginForm)
        ensures
            r.wf(),
            r.user@.len() == 0 && r.pass@.len() == 0 && r.confirm@.len() == 0,
            !r.user.masked() && r.pass.masked() && r.confirm.masked(),
            r.focus == Focus::User,
            r.setup == setup,
    {
        LoginForm { user: Field::new(false), pass: Field::new(true), confirm: Field::new(true), focus: Focus::User, setup }
    }

    /// Handles key `c`: Tab moves the focus; Enter moves it on, or submits
    /// on the last field; Backspace and Delete remove the last byte of the
    /// focused field; printable ASCII is appended to it; other keys are
    /// ignored.
    pub fn key(&mut self, c: u8) -> (r: KeyOutcome)
        requires
            old(self).wf(),
        ensures
            final(self).wf(),
            final(self).setup == old(self).setup,
            c == 9 ==> r == KeyOutcome::Redraw && final(self).focus == tab_next(old(self).focus, old(self).setup),
            (c == 10 || c == 13) && old(self).focus != (if old(self).setup { Focus::Confirm } else { Focus::Pass }) ==> r
                == KeyOutcome::Redraw && final(self).focus == (if old(self).focus == Focus::User { Focus::Pass } else {
                if old(self).setup && old(self).focus == Focus::Pass { Focus::Confirm } else { Focus::User }
            }),
            (c == 10 || c == 13) && old(self).focus == (if old(self).setup { Focus::Confirm } else { Focus::Pass }) ==> r
                == KeyOutcome::Submit && final(self).focus == old(self).focus,
            (c == 8 || c == 127) ==> r == KeyOutcome::Redraw && final(self).focus == old(self).focus,
            (c == 8 || c == 127) && old(self).focus == Focus::User ==> final(self).user@ == (if old(self).user@.len() > 0 {
                old(self).user@.drop_last()
            } else {
                old(self).user@
            }),
            (c == 8 || c == 127) && old(self).focus == Focus::Pass ==> final(self).pass@ == (if old(self).pass@.len() > 0 {
                old(self).pass@.drop_last()
            } else {
                old(self).pass@
            }),
            0x20 <= c <= 0x7E ==> r == KeyOutcome::Redraw && final(self).focus == old(self).focus,
            0x20 <= c <= 0x7E && old(self).focus == Focus::User && old(self).user@.len() < MAX_INPUT ==> final(self).user@
                == old(self).user@.push(c),
            0x20 <= c <= 0x7E && old(self).focus == Focus::Pass && old(self).pass@.len() < MAX_INPUT ==> final(self).pass@
                == old(self).pass@.push(c),
            0x20 <= c <= 0x7E && old(self).focus == Focus::Confirm && old(self).confirm@.len() < MAX_INPUT ==> final(self).confirm@
                == old(self).confirm@.push(c),
            !(c == 9 || c == 10 || c == 13 || c == 8 || c == 127 || 0x20 <= c <= 0x7E) ==> r == KeyOutcome::Ignored
                && final(self).focus == old(self).focus,
            (c == 9 || c == 10 || c == 13 || !(c == 8 || c == 127 || 0x20 <= c <= 0x7E)) ==> final(self).user@
                == old(self).user@ && final(self).pass@ == old(self).pass@ && final(self).confirm@ == old(self).confirm@,
    {
        if c == 9 {
            self.focus = next_focus(self.focus, self.setup);
            return KeyOutcome::Redraw;
        }
        if c == 10 || c == 13 {
            let last: Focus = if self.setup { Focus::Confirm } else { Focus::Pass };
            if self.focus != last {
                self.focus = match self.focus {
                    Focus::User => Focus::Pass,
                    Focus::Pass => if self.setup { Focus::Confirm } else { Focus::User },
                    Focus::Confirm => Focus::User,
                };
                return KeyOutcome::Redraw;
            }
            return KeyOutcome::Submit;
        }
        if c == 8 || c == 127 {
            match self.focus {
                Focus::User => self.user.pop(),
                Focus::Pass => self.pass.pop(),
                Focus::Confirm => self.confirm.pop(),
            }
            return KeyOutcome::Redraw;
        }
        if 0x20 <= c && c <= 0x7E {
            match self.focus {
                Focus::User => self.user.push(c),
                Focus::Pass => self.pass.push(c),
                Focus::Confirm => self.confirm.push(c),
            }
            return KeyOutcome::Redraw;
        }
        KeyOutcome::Ignored
    }
}

/// What submitting the setup form comes to.
#[derive(PartialEq, Eq, Structural, Clone, Copy, Debug)]
pub enum SetupCheck {
    /// User name or password empty.
    Missing,
    /// Password and confirmation differ.
    Mismatch,
    /// Create the account.
    Create,
}

/// Checks a submitted setup form; on a mismatch both password fields are
/// cleared and the focus returns to the password.
pub fn check_setup(form: &mut LoginForm) -> (r: SetupCheck)
    requires
        old(form).wf(),
    ensures
        final(form).wf(),
        final(form).setup == old(form).setup,
        final(form).user@ == old(form).user@,
        r == (if old(form).user@.len() == 0 || old(form).pass@.len() == 0 {
            SetupCheck::Missing
        } else if old(form).pass@ != old(form).confirm@ {
            SetupCheck::Mismatch
        } else {
            SetupCheck::Create
        }),
        r == SetupCheck::Mismatch ==> final(form).pass@.len() == 0 && final(form).confirm@.len() == 0 && final(form).focus
            == Focus::Pass,
        r != SetupCheck::Mismatch ==> final(form).pass@ == old(form).pass@ && final(form).confirm@ == old(form).confirm@
            && final(form).focus == old(form).focus,
{
    if form.user.len() == 0 || form.pass.len() == 0 {
        return SetupCheck::Missing;
    }
    let same: bool = form.pass.buf.len() == form.confirm.buf.len() && crate::bytes::bytes_eq_at(
        form.pass.buf.as_slice(),
        0,
        form.confirm.buf.as_slice(),
    );
    proof {
        if form.pass.buf@.len() == form.confirm.buf@.len() {
            assert(form.pass.buf@.subrange(0, form.confirm.buf@.len() as int) =~= form.pass.buf@);
        }
    }
    if !same {
        form.pass.clear();
        form.confirm.clear();
        form.focus = Focus::Pass;
        return SetupCheck::Mismatch;
    }
    SetupCheck::Create
}

/// A rejected login: the password field is cleared and focused.
pub fn login_failed(form: &mut LoginForm)
    requires
        old(form).wf(),
    ensures
        final(form).wf(),
        final(form).pass@.len() == 0,
        final(form).focus == Focus::Pass,
        final(form).user@ == old(form).user@,
        final(form).confirm@ == old(form).confirm@,
        final(form).setup == old(form).setup,
{
    form.pass.clear();
    form.focus = Focus::Pass;
}

/// Where the fields lie: their left edge and width, and the top of each.
#[derive(PartialEq, Eq, Structural, Clone, Copy, Debug)]
pub struct Layout {
    pub fx: i32,
    pub fw: u32,
    pub user_y: i32,
    pub pass_y: i32,
    pub confirm_y: i32,
}

/// Half of `x`, rounded toward zero.
pub open spec fn half(x: int) -> int {
    if x >= 0 { x / 2 } else { -((-x) / 2) }
}

/// The layout on a `w` x `h` screen: a 440-pixel panel, 270 high when
/// setting up and 215 otherwise, centred; fields 30 pixels in, 50 apart.
pub fn layout(w: u32, h: u32, setup: bool) -> (r: Layout)
    requires
        w <= 0x10_0000,
        h <= 0x10_0000,
    ensures
        r.fx == half(w - 440) + 30,
        r.fw == 380,
        r.user_y == half(h - (if setup { 270int } else { 215int })) + 92,
        r.pass_y == r.user_y + 50,
        r.confirm_y == r.user_y + 100,
{
    let wi: i32 = w as i32;
    let hi: i32 = h as i32;
    let pw: u32 = 440;
    let ph: u32 = if setup { 270 } else { 215 };
    let px: i32 = (wi - pw as i32) / 2;
    let py: i32 = (hi - ph as i32) / 2;
    Layout { fx: px + 30, fw: pw - 60, user_y: py + 78 + 14, pass_y: py + 128 + 14, confirm_y: py + 178 + 14 }
}

/// Whether point (`mx`, `my`) lies in the field whose top is `y`.
pub open spec fn inside(l: Layout, mx: int, my: int, y: int) -> bool {
    mx >= l.fx && mx < l.fx + l.fw && my >= y && my < y + 22
}

/// The field clicked at (`mx`, `my`); the confirmation field counts only
/// when setting up.
pub fn hit_test(l: &Layout, setup: bool, mx: i32, my: i32) -> (r: Option<Focus>)
    ensures
        r == (if inside(*l, mx as int, my as int, l.user_y as int) {
            Some(Focus::User)
        } else if inside(*l, mx as int, my as int, l.pass_y as int) {
            Some(Focus::Pass)
        } else if setup && inside(*l, mx as int, my as int, l.confirm_y as int) {
            Some(Focus::Confirm)
        } else {
            None
        }),
{
    let right: i64 = l.fx as i64 + l.fw as i64;
    let inside_u: bool = mx >= l.fx && (mx as i64) < right && my >= l.user_y && (my as i64) < l.user_y as i64 + 22;
    let inside_p: bool = mx >= l.fx && (mx as i64) < right && my >= l.pass_y && (my as i64) < l.pass_y as i64 + 22;
    let inside_c: bool = mx >= l.fx && (mx as i64) < right && my >= l.confirm_y && (my as i64) < l.confirm_y as i64 + 22;
    if inside_u {
        Some(Focus::User)
    } else if inside_p {
        Some(Focus::Pass)
    } else if setup && inside_c {
        Some(Focus::Confirm)
    } else {
        None
    }
}

} // verus!
