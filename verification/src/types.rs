//! Events, keycodes, and the results of handling and validation.
use std::fmt::Debug;
use std::hash::Hash;
use vstd::prelude::*;
use vstd::string::StringExecFns;

verus! {

/// Kind of an event.
///
/// [`Kind::AxisEngage`] and [`Kind::AxisDisengage`] are meant for actions like "cursor parking".
#[derive(Copy, Clone, Debug, PartialEq, Eq, Structural)]
pub enum Kind {
    /// The key is released.
    Up,
    /// The key is pressed down.
    Down,
    /// The axis value changed.
    AxisUpdate,
    /// The axis action has engaged.
    AxisEngage,
    /// The axis action has disengaged.
    AxisDisengage,
}

/// A value with a position in the sequence of all values of its type. Values at the same position
/// are the same key.
pub trait Scalar: Copy + Eq + Hash {
    /// Position of the value. Implementations that are verified define it.
    open spec fn code(&self) -> usize {
        arbitrary()
    }

    /// Returns the position of the value.
    fn index(&self) -> (index: usize)
        ensures
            index == self.code(),
    ;
}

/// A keycode, of an input or of an output event. Every [`Scalar`] that can be hashed is one.
pub trait Keycode: Hash + Scalar {

}

impl<T: Hash + Scalar> Keycode for T {

}

impl Scalar for u8 {
    open spec fn code(&self) -> usize {
        *self as usize
    }

    fn index(&self) -> (index: usize) {
        *self as usize
    }
}

impl Scalar for u16 {
    open spec fn code(&self) -> usize {
        *self as usize
    }

    fn index(&self) -> (index: usize) {
        *self as usize
    }
}

impl Scalar for u32 {
    open spec fn code(&self) -> usize {
        *self as usize
    }

    fn index(&self) -> (index: usize) {
        *self as usize
    }
}

/// Where a `usize` has fewer bits than the value, its low bits are the position.
impl Scalar for u64 {
    open spec fn code(&self) -> usize {
        *self as usize
    }

    #[verifier::truncate]
    fn index(&self) -> (index: usize) {
        *self as usize
    }
}

impl Scalar for usize {
    open spec fn code(&self) -> usize {
        *self
    }

    fn index(&self) -> (index: usize) {
        *self
    }
}

impl Scalar for i8 {
    open spec fn code(&self) -> usize {
        (*self - i8::MIN) as usize
    }

    fn index(&self) -> (index: usize) {
        (*self as i64 - i8::MIN as i64) as usize
    }
}

impl Scalar for i16 {
    open spec fn code(&self) -> usize {
        (*self - i16::MIN) as usize
    }

    fn index(&self) -> (index: usize) {
        (*self as i64 - i16::MIN as i64) as usize
    }
}

impl Scalar for i32 {
    open spec fn code(&self) -> usize {
        (*self - i32::MIN) as usize
    }

    fn index(&self) -> (index: usize) {
        (*self as i64 - i32::MIN as i64) as usize
    }
}

/// Where a `usize` has fewer bits than the value, its low bits are the position.
impl Scalar for i64 {
    open spec fn code(&self) -> usize {
        (*self - i64::MIN) as u64 as usize
    }

    #[verifier::truncate]
    fn index(&self) -> (index: usize) {
        let place: u64 = if *self < 0 {
            (*self - i64::MIN) as u64
        } else {
            *self as u64 + i64::MAX as u64 + 1
        };
        place as usize
    }
}

impl Scalar for isize {
    open spec fn code(&self) -> usize {
        (*self - isize::MIN) as usize
    }

    fn index(&self) -> (index: usize) {
        if *self < 0 {
            (*self - isize::MIN) as usize
        } else {
            *self as usize + isize::MAX as usize + 1
        }
    }
}

/// An event, of the input or of the output.
#[derive(Copy, Clone, Debug)]
pub struct Event<T: Keycode> {
    /// The event code.
    pub keycode: T,
    /// What kind of event.
    pub kind: Kind,
    /// Axis value, only relevant for [`Kind::AxisUpdate`].
    pub value: i16,
}

/// What a handler did with an event.
#[derive(Copy, Clone, Debug, PartialEq, Eq, Structural)]
pub enum HandlingResult {
    /// The event is not managed by this handler, thus it is not handled.
    Unhandled,
    /// The event was handled regularly.
    Handled,
    /// The event was detected as a duplicated keydown and ignored.
    DoubleDown,
    /// The event was detected as a duplicated keyup and ignored.
    DoubleUp,
}

/// Why a configuration is not valid.
pub enum ConfigValidationError<A> {
    /// Two modifier groups have this id.
    DuplicateModifierId(String),
    /// Two modifier groups have these keys.
    DuplicateModifierGroup(Vec<A>),
    /// Two actions have this key.
    DuplicateAction(A),
    /// The key has a combo with a modifier group that it is part of.
    SelfModifier(A),
    /// No modifier group has the id, which a combo of the key refers to.
    UndefinedModifier(String, A),
    /// Two combos of the key refer to the modifier group with this id.
    DuplicateModifiedAction(String, A),
}

/// What is odd about a valid configuration.
pub enum ConfigValidationWarning<A> {
    /// The action is immediate, but its key is not a modifier key.
    ImmediateAction(A),
    /// The modifier group with this id has no keys.
    EmptyModifierGroup(String),
}

/// A warning, as a mathematical value.
pub enum Caution<A> {
    /// The action is immediate, but its key is not a modifier key.
    ImmediateAction(A),
    /// The modifier group with this id has no keys.
    EmptyModifierGroup(Seq<char>),
}

impl<A> View for ConfigValidationWarning<A> {
    type V = Caution<A>;

    open spec fn view(&self) -> Caution<A> {
        match self {
            ConfigValidationWarning::ImmediateAction(action) => Caution::ImmediateAction(*action),
            ConfigValidationWarning::EmptyModifierGroup(id) => Caution::EmptyModifierGroup(id@),
        }
    }
}

/// Calls `format!` with the value's `Debug`. What the text holds is up to the type.
#[verifier::external_body]
fn render<T: Debug>(value: &T) -> (text: String) {
    format!("{:?}", value)
}

/// The text is one that the value's `Debug` gives.
pub closed spec fn shows<T: Debug>(value: &T, shown: Seq<char>) -> bool {
    exists|text: String| #[trigger] call_ensures(render::<T>, (value,), text) && text@ == shown
}

/// Returns what the function gives for the value.
fn apply<T, F: Fn(&T) -> String>(f: F, value: &T) -> (text: String)
    requires
        call_requires(f, (value,)),
    ensures
        call_ensures(f, (value,), text),
{
    f(value)
}

/// Returns the text that the value's `Debug` gives.
fn show<T: Debug>(value: &T) -> (text: String)
    ensures
        shows(value, text@),
{
    apply(render::<T>, value)
}

/// Puts texts together.
fn join(parts: [&str; 5]) -> (text: String)
    ensures
        text@ == parts@[0]@ + parts@[1]@ + parts@[2]@ + parts@[3]@ + parts@[4]@,
{
    let mut text = parts[0].to_owned();
    text.append(parts[1]);
    text.append(parts[2]);
    text.append(parts[3]);
    text.append(parts[4]);
    text
}

impl<A> ConfigValidationError<A> {
    /// The text of the error, where the keycodes look like `shown`.
    pub open spec fn text(&self, shown: Seq<char>) -> Seq<char> {
        match self {
            ConfigValidationError::DuplicateModifierId(id) => "duplicate modifiers for \""@ + id@
                + "\""@,
            ConfigValidationError::DuplicateModifierGroup(_) => "duplicate modifier group \""@ + shown
                + "\""@,
            ConfigValidationError::DuplicateAction(_) => "duplicate action for key \""@ + shown
                + "\""@,
            ConfigValidationError::SelfModifier(_) => "key \""@ + shown
                + "\" is a modifier to itself"@,
            ConfigValidationError::UndefinedModifier(id, _) => "undefined modifier \""@ + id@
                + "\" in key \""@ + shown + "\""@,
            ConfigValidationError::DuplicateModifiedAction(id, _) => "duplicate modifier \""@ + id@
                + "\" in key \""@ + shown + "\""@,
        }
    }

    /// Returns the text of the error, where the keycodes look like `shown`.
    pub fn message(&self, shown: &str) -> (text: String)
        ensures
            text@ == self.text(shown@),
    {
        proof {
            reveal_strlit("");
        }
        let text = match self {
            ConfigValidationError::DuplicateModifierId(id) => join(
                ["duplicate modifiers for \"", id.as_str(), "\"", "", ""],
            ),
            ConfigValidationError::DuplicateModifierGroup(_) => join(
                ["duplicate modifier group \"", shown, "\"", "", ""],
            ),
            ConfigValidationError::DuplicateAction(_) => join(
                ["duplicate action for key \"", shown, "\"", "", ""],
            ),
            ConfigValidationError::SelfModifier(_) => join(
                ["key \"", shown, "\" is a modifier to itself", "", ""],
            ),
            ConfigValidationError::UndefinedModifier(id, _) => join(
                ["undefined modifier \"", id.as_str(), "\" in key \"", shown, "\""],
            ),
            ConfigValidationError::DuplicateModifiedAction(id, _) => join(
                ["duplicate modifier \"", id.as_str(), "\" in key \"", shown, "\""],
            ),
        };
        proof {
            assert(text@ =~= self.text(shown@));
        }
        text
    }
}

impl<A: Debug> ConfigValidationError<A> {
    /// The text is what `Debug` gives of the keycodes that the error is about.
    pub open spec fn is_shown(&self, shown: Seq<char>) -> bool {
        match self {
            ConfigValidationError::DuplicateModifierId(_) => shown == Seq::<char>::empty(),
            ConfigValidationError::DuplicateModifierGroup(group) => shows(group, shown),
            ConfigValidationError::DuplicateAction(action) => shows(action, shown),
            ConfigValidationError::SelfModifier(modifier) => shows(modifier, shown),
            ConfigValidationError::UndefinedModifier(_, action) => shows(action, shown),
            ConfigValidationError::DuplicateModifiedAction(_, action) => shows(action, shown),
        }
    }

    /// Returns the text of the error. The keycodes look as their `Debug` has it.
    pub fn describe(&self) -> (text: String)
        ensures
            exists|shown: Seq<char>|
                text@ == #[trigger] self.text(shown) && self.is_shown(shown),
    {
        let shown = match self {
            ConfigValidationError::DuplicateModifierId(_) => String::new(),
            ConfigValidationError::DuplicateModifierGroup(group) => show(group),
            ConfigValidationError::DuplicateAction(action) => show(action),
            ConfigValidationError::SelfModifier(modifier) => show(modifier),
            ConfigValidationError::UndefinedModifier(_, action) => show(action),
            ConfigValidationError::DuplicateModifiedAction(_, action) => show(action),
        };
        proof {
            assert(self.is_shown(shown@));
        }
        self.message(shown.as_str())
    }
}

impl<A> ConfigValidationWarning<A> {
    /// The text of the warning, where the keycodes look like `shown`.
    pub open spec fn text(&self, shown: Seq<char>) -> Seq<char> {
        match self {
            ConfigValidationWarning::ImmediateAction(_) => "in key \""@ + shown
                + "\", `immediate` only applies to modifier"@,
            ConfigValidationWarning::EmptyModifierGroup(id) => "in modifier \""@ + id@
                + "\", empty modifier have no effect"@,
        }
    }

    /// Returns the text of the warning, where the keycodes look like `shown`.
    pub fn message(&self, shown: &str) -> (text: String)
        ensures
            text@ == self.text(shown@),
    {
        proof {
            reveal_strlit("");
        }
        let text = match self {
            ConfigValidationWarning::ImmediateAction(_) => join(
                ["in key \"", shown, "\", `immediate` only applies to modifier", "", ""],
            ),
            ConfigValidationWarning::EmptyModifierGroup(id) => join(
                ["in modifier \"", id.as_str(), "\", empty modifier have no effect", "", ""],
            ),
        };
        proof {
            assert(text@ =~= self.text(shown@));
        }
        text
    }
}

impl<A: Debug> ConfigValidationWarning<A> {
    /// The text is what `Debug` gives of the keycode that the warning is about.
    pub open spec fn is_shown(&self, shown: Seq<char>) -> bool {
        match self {
            ConfigValidationWarning::ImmediateAction(action) => shows(action, shown),
            ConfigValidationWarning::EmptyModifierGroup(_) => shown == Seq::<char>::empty(),
        }
    }

    /// Returns the text of the warning. The keycodes look as their `Debug` has it.
    pub fn describe(&self) -> (text: String)
        ensures
            exists|shown: Seq<char>|
                text@ == #[trigger] self.text(shown) && self.is_shown(shown),
    {
        let shown = match self {
            ConfigValidationWarning::ImmediateAction(action) => show(action),
            ConfigValidationWarning::EmptyModifierGroup(_) => String::new(),
        };
        proof {
            assert(self.is_shown(shown@));
        }
        self.message(shown.as_str())
    }
}

/// The positions of integers are in their order, and start with the least.
pub proof fn integers_have_positions_in_order()
    ensures
        forall|a: u8, b: u8| #![trigger a.code(), b.code()] b.code() - a.code() == b - a,
        forall|a: u16, b: u16| #![trigger a.code(), b.code()] b.code() - a.code() == b - a,
        forall|a: u32, b: u32| #![trigger a.code(), b.code()] b.code() - a.code() == b - a,
        forall|a: usize, b: usize| #![trigger a.code(), b.code()] b.code() - a.code() == b - a,
        forall|a: i8, b: i8| #![trigger a.code(), b.code()] b.code() - a.code() == b - a,
        forall|a: i16, b: i16| #![trigger a.code(), b.code()] b.code() - a.code() == b - a,
        forall|a: i32, b: i32| #![trigger a.code(), b.code()] b.code() - a.code() == b - a,
        forall|a: isize, b: isize| #![trigger a.code(), b.code()] b.code() - a.code() == b - a,
        forall|a: u64, b: u64|
            #![trigger a.code(), b.code()]
            a <= usize::MAX && b <= usize::MAX ==> b.code() - a.code() == b - a,
        forall|a: i64, b: i64|
            #![trigger a.code(), b.code()]
            a - i64::MIN <= usize::MAX && b - i64::MIN <= usize::MAX ==> b.code() - a.code() == b
                - a,
        u8::MIN.code() == 0,
        u16::MIN.code() == 0,
        u32::MIN.code() == 0,
        u64::MIN.code() == 0,
        usize::MIN.code() == 0,
        i8::MIN.code() == 0,
        i16::MIN.code() == 0,
        i32::MIN.code() == 0,
        i64::MIN.code() == 0,
        isize::MIN.code() == 0,
{
}

/// Every error names what it is about, the id of the group and the keycodes, in quotes, and warnings
/// do so too.
pub proof fn texts_name_what_is_wrong<A>(id: String, key: A, keys: Vec<A>, shown: Seq<char>)
    ensures
        ConfigValidationError::<A>::DuplicateModifierId(id).text(shown)
            == "duplicate modifiers for \""@ + id@ + "\""@,
        ConfigValidationError::DuplicateModifierGroup(keys).text(shown)
            == "duplicate modifier group \""@ + shown + "\""@,
        ConfigValidationError::DuplicateAction(key).text(shown) == "duplicate action for key \""@
            + shown + "\""@,
        ConfigValidationError::SelfModifier(key).text(shown) == "key \""@ + shown
            + "\" is a modifier to itself"@,
        ConfigValidationError::UndefinedModifier(id, key).text(shown) == "undefined modifier \""@
            + id@ + "\" in key \""@ + shown + "\""@,
        ConfigValidationError::DuplicateModifiedAction(id, key).text(shown)
            == "duplicate modifier \""@ + id@ + "\" in key \""@ + shown + "\""@,
        ConfigValidationWarning::ImmediateAction(key).text(shown) == "in key \""@ + shown
            + "\", `immediate` only applies to modifier"@,
        ConfigValidationWarning::<A>::EmptyModifierGroup(id).text(shown) == "in modifier \""@ + id@
            + "\", empty modifier have no effect"@,
{
}

/// What is shown in the text of an error or a warning is what `Debug` gives of the keycodes that it
/// is about.
pub proof fn keycodes_are_shown<A: Debug>(id: String, key: A, keys: Vec<A>, shown: Seq<char>)
    ensures
        ConfigValidationError::DuplicateModifierGroup(keys).is_shown(shown) == shows(&keys, shown),
        ConfigValidationError::DuplicateAction(key).is_shown(shown) == shows(&key, shown),
        ConfigValidationError::SelfModifier(key).is_shown(shown) == shows(&key, shown),
        ConfigValidationError::UndefinedModifier(id, key).is_shown(shown) == shows(&key, shown),
        ConfigValidationError::DuplicateModifiedAction(id, key).is_shown(shown) == shows(
            &key,
            shown,
        ),
        ConfigValidationWarning::ImmediateAction(key).is_shown(shown) == shows(&key, shown),
{
}

} // verus!
