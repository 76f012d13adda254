use vstd::prelude::*;

verus! {

/// Main axis of a box's children.
#[derive(Clone, Copy, Debug, PartialEq, Eq, Structural)]
pub enum FlexDirection {
    Row,
    Column,
}

/// Whether children may wrap onto further lines.
#[derive(Clone, Copy, Debug, PartialEq, Eq, Structural)]
pub enum FlexWrap {
    NoWrap,
    Wrap,
}

/// A requested size: either left to the layout solver, or a fixed
/// point value, carried as the 32-bit encoding the solver consumes.
#[derive(Clone, Copy, Debug, PartialEq, Eq, Structural)]
pub enum Dimension {
    Auto,
    Point(u32),
}

/// One value of the loosely typed property bag handed to `create`.
/// Numbers arrive as the 32-bit encoding the solver consumes, whatever
/// precision the caller started from.
#[derive(Debug)]
pub enum PropValue {
    Number(u32),
    Text(String),
    Other,
}

/// The 32-bit encoding of a growth factor of zero.
pub const GROW_DEFAULT: u32 = 0;

/// The 32-bit encoding of a shrink factor of one.
pub const SHRINK_DEFAULT: u32 = 0x3F80_0000;

/// A fully resolved style record, every field filled with either the
/// bag's value or the documented default.
#[derive(Clone, Copy, Debug, PartialEq, Eq, Structural)]
pub struct Style {
    pub direction: FlexDirection,
    pub wrap: FlexWrap,
    pub grow: u32,
    pub shrink: u32,
    pub width: Dimension,
    pub height: Dimension,
}

/// A known style key held a value of the wrong type; the whole
/// resolution fails rather than silently substituting a default.
#[derive(Clone, Copy, Debug, PartialEq, Eq, Structural)]
pub struct StyleTypeError;

/// First binding of `key` in the bag, if any.
pub open spec fn lookup(bag: Seq<(String, PropValue)>, key: Seq<char>) -> Option<PropValue>
    decreases bag.len(),
{
    if bag.len() == 0 {
        None
    } else if bag[0].0@ == key {
        Some(bag[0].1)
    } else {
        lookup(bag.drop_first(), key)
    }
}

pub open spec fn number_key_ok(bag: Seq<(String, PropValue)>, key: Seq<char>) -> bool {
    match lookup(bag, key) {
        None => true,
        Some(v) => v is Number,
    }
}

pub open spec fn text_key_ok(bag: Seq<(String, PropValue)>, key: Seq<char>) -> bool {
    match lookup(bag, key) {
        None => true,
        Some(v) => v is Text,
    }
}

/// Every known key that is present holds a value of its declared type.
pub open spec fn bag_ok(bag: Seq<(String, PropValue)>) -> bool {
    &&& text_key_ok(bag, "flexDirection"@)
    &&& text_key_ok(bag, "flexWrap"@)
    &&& number_key_ok(bag, "flexGrow"@)
    &&& number_key_ok(bag, "flexShrink"@)
    &&& number_key_ok(bag, "width"@)
    &&& number_key_ok(bag, "height"@)
}

pub open spec fn direction_of(bag: Seq<(String, PropValue)>) -> FlexDirection {
    match lookup(bag, "flexDirection"@) {
        Some(PropValue::Text(s)) => if s@ == "column"@ {
            FlexDirection::Column
        } else {
            FlexDirection::Row
        },
        _ => FlexDirection::Row,
    }
}

pub open spec fn wrap_of(bag: Seq<(String, PropValue)>) -> FlexWrap {
    match lookup(bag, "flexWrap"@) {
        Some(PropValue::Text(s)) => if s@ == "wrap"@ {
            FlexWrap::Wrap
        } else {
            FlexWrap::NoWrap
        },
        _ => FlexWrap::NoWrap,
    }
}

pub open spec fn grow_of(bag: Seq<(String, PropValue)>) -> u32 {
    match lookup(bag, "flexGrow"@) {
        Some(PropValue::Number(u)) => u,
        _ => GROW_DEFAULT,
    }
}

pub open spec fn shrink_of(bag: Seq<(String, PropValue)>) -> u32 {
    match lookup(bag, "flexShrink"@) {
        Some(PropValue::Number(u)) => u,
        _ => SHRINK_DEFAULT,
    }
}

pub open spec fn width_of(bag: Seq<(String, PropValue)>) -> Dimension {
    match lookup(bag, "width"@) {
        Some(PropValue::Number(u)) => Dimension::Point(u),
        _ => Dimension::Auto,
    }
}

pub open spec fn height_of(bag: Seq<(String, PropValue)>) -> Dimension {
    match lookup(bag, "height"@) {
        Some(PropValue::Number(u)) => Dimension::Point(u),
        _ => Dimension::Auto,
    }
}

/// The style a well-typed bag resolves to: present keys override the
/// defaults row, noWrap, grow 0, shrink 1, auto width and height.
pub open spec fn style_of(bag: Seq<(String, PropValue)>) -> Style {
    Style {
        direction: direction_of(bag),
        wrap: wrap_of(bag),
        grow: grow_of(bag),
        shrink: shrink_of(bag),
        width: width_of(bag),
        height: height_of(bag),
    }
}

pub open spec fn resolve_spec(bag: Seq<(String, PropValue)>) -> Result<Style, StyleTypeError> {
    if bag_ok(bag) {
        Ok(style_of(bag))
    } else {
        Err(StyleTypeError)
    }
}

/// The default style record itself.
pub open spec fn default_style() -> Style {
    Style {
        direction: FlexDirection::Row,
        wrap: FlexWrap::NoWrap,
        grow: GROW_DEFAULT,
        shrink: SHRINK_DEFAULT,
        width: Dimension::Auto,
        height: Dimension::Auto,
    }
}

proof fn lemma_lookup_skip(bag: Seq<(String, PropValue)>, key: Seq<char>, i: int)
    requires
        0 <= i <= bag.len(),
        forall|j: int| 0 <= j < i ==> #[trigger] bag[j].0@ != key,
    ensures
        lookup(bag, key) == lookup(bag.skip(i), key),
    decreases i,
{
    if i > 0 {
        assert(bag[0].0@ != key);
        lemma_lookup_skip(bag.drop_first(), key, i - 1);
        assert(bag.drop_first().skip(i - 1) =~= bag.skip(i));
    } else {
        assert(bag.skip(0) =~= bag);
    }
}

/// Index of the first binding of `key`, searched front to back.
fn find(bag: &Vec<(String, PropValue)>, key: &String) -> (r: Option<usize>)
    ensures
        match r {
            None => lookup(bag@, key@) is None,
            Some(i) => i < bag@.len() && lookup(bag@, key@) == Some(bag@[i as int].1),
        },
{
    let mut i: usize = 0;
    while i < bag.len()
        invariant
            0 <= i <= bag@.len(),
            forall|j: int| 0 <= j < i ==> #[trigger] bag@[j].0@ != key@,
        decreases bag@.len() - i,
    {
        if bag[i].0 == *key {
            proof {
                lemma_lookup_skip(bag@, key@, i as int);
                assert(bag@.skip(i as int)[0] == bag@[i as int]);
            }
            return Some(i);
        }
        i = i + 1;
    }
    proof {
        lemma_lookup_skip(bag@, key@, bag@.len() as int);
        assert(bag@.skip(bag@.len() as int) =~= Seq::<(String, PropValue)>::empty());
    }
    None
}

/// Turns a property bag into a typed style record.  Unknown keys are
/// ignored; a known key of the wrong type fails the whole resolution.
pub fn resolve(bag: &Vec<(String, PropValue)>) -> (r: Result<Style, StyleTypeError>)
    ensures
        r == resolve_spec(bag@),
{
    let mut style = Style {
        direction: FlexDirection::Row,
        wrap: FlexWrap::NoWrap,
        grow: GROW_DEFAULT,
        shrink: SHRINK_DEFAULT,
        width: Dimension::Auto,
        height: Dimension::Auto,
    };

    match find(bag, &String::from_str("flexDirection")) {
        None => {},
        Some(i) => match &bag[i].1 {
            PropValue::Text(s) => {
                if *s == String::from_str("column") {
                    style.direction = FlexDirection::Column;
                }
            },
            _ => {
                return Err(StyleTypeError);
            },
        },
    }

    match find(bag, &String::from_str("flexWrap")) {
        None => {},
        Some(i) => match &bag[i].1 {
            PropValue::Text(s) => {
                if *s == String::from_str("wrap") {
                    style.wrap = FlexWrap::Wrap;
                }
            },
            _ => {
                return Err(StyleTypeError);
            },
        },
    }

    match find(bag, &String::from_str("flexGrow")) {
        None => {},
        Some(i) => match &bag[i].1 {
            PropValue::Number(u) => {
                style.grow = *u;
            },
            _ => {
                return Err(StyleTypeError);
            },
        },
    }

    match find(bag, &String::from_str("flexShrink")) {
        None => {},
        Some(i) => match &bag[i].1 {
            PropValue::Number(u) => {
                style.shrink = *u;
            },
            _ => {
                return Err(StyleTypeError);
            },
        },
    }

    match find(bag, &String::from_str("width")) {
        None => {},
        Some(i) => match &bag[i].1 {
            PropValue::Number(u) => {
                style.width = Dimension::Point(*u);
            },
            _ => {
                return Err(StyleTypeError);
            },
        },
    }

    match find(bag, &String::from_str("height")) {
        None => {},
        Some(i) => match &bag[i].1 {
            PropValue::Number(u) => {
                style.height = Dimension::Point(*u);
            },
            _ => {
                return Err(StyleTypeError);
            },
        },
    }

    Ok(style)
}

/// Defaults: an empty property bag resolves to row direction, no wrap,
/// grow 0, shrink 1, and automatic width and height.
pub proof fn lemma_empty_bag_defaults()
    ensures
        resolve_spec(Seq::empty()) == Ok::<Style, StyleTypeError>(default_style()),
{
}

} // verus!
