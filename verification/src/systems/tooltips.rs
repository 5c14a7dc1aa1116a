//! Hover labels for the entities under the mouse pointer.

use vstd::prelude::*;
use vstd::string::StringExecFns;
use crate::camera::{Camera, Point};

verus! {

/// The tooltip layer is this many times finer than the map layer.
pub const TOOLTIP_SCALE: i32 = 4;

/// What the tooltip rules need to know of one named entity.
#[derive(Clone, Debug, PartialEq, Eq)]
pub struct Labelled {
    /// Where the entity stands, in map coordinates.
    pub position: Point,
    pub name: String,
    /// Current hit points, for entities that have any.
    pub health: Option<i32>,
}

/// A label to print on the tooltip layer.
#[derive(Clone, Debug, PartialEq, Eq)]
pub struct Tooltip {
    /// Where to print, in tooltip-layer coordinates.
    pub position: Point,
    pub text: String,
}

/// The character for a single decimal digit.
pub open spec fn digit_char(d: int) -> char {
    if d == 0 {
        '0'
    } else if d == 1 {
        '1'
    } else if d == 2 {
        '2'
    } else if d == 3 {
        '3'
    } else if d == 4 {
        '4'
    } else if d == 5 {
        '5'
    } else if d == 6 {
        '6'
    } else if d == 7 {
        '7'
    } else if d == 8 {
        '8'
    } else {
        '9'
    }
}

/// Decimal digits of a natural number, most significant first, without
/// leading zeros.
pub open spec fn decimal_digits(n: nat) -> Seq<char>
    decreases n,
{
    if n < 10 {
        seq![digit_char(n as int)]
    } else {
        decimal_digits(n / 10).push(digit_char((n % 10) as int))
    }
}

/// Decimal text of an integer, with a leading minus sign when negative.
pub open spec fn decimal_text(n: int) -> Seq<char> {
    if n < 0 {
        seq!['-'] + decimal_digits((-n) as nat)
    } else {
        decimal_digits(n as nat)
    }
}

/// The text shown for an entity: its name, followed by its hit points when it
/// has any.
pub open spec fn label_text(name: Seq<char>, health: Option<i32>) -> Seq<char> {
    match health {
        Some(h) => name + seq![' ', ':', ' '] + decimal_text(h as int) + seq![' ', 'h', 'p'],
        None => name,
    }
}

/// Whether an entity at `position` is under the mouse, given the camera.
pub open spec fn is_hovered(position: Point, mouse_pos: Point, camera: Camera) -> bool {
    &&& position.x == mouse_pos.x + camera.left_x
    &&& position.y == mouse_pos.y + camera.top_y
}

/// Where labels are printed for the given mouse position.
pub open spec fn label_position(mouse_pos: Point) -> (int, int) {
    (mouse_pos.x * TOOLTIP_SCALE, mouse_pos.y * TOOLTIP_SCALE)
}

/// The labels for the hovered entities, in the order of `entities`, each as
/// the pair of its place and its text.
pub open spec fn hover_labels(entities: Seq<Labelled>, mouse_pos: Point, camera: Camera) -> Seq<
    (Point, Seq<char>),
>
    decreases entities.len(),
{
    if entities.len() == 0 {
        Seq::empty()
    } else {
        let rest = hover_labels(entities.drop_last(), mouse_pos, camera);
        let e = entities.last();
        if is_hovered(e.position, mouse_pos, camera) {
            rest.push(
                (
                    Point {
                        x: label_position(mouse_pos).0 as i32,
                        y: label_position(mouse_pos).1 as i32,
                    },
                    label_text(e.name@, e.health),
                ),
            )
        } else {
            rest
        }
    }
}

/// The labels of a list of tooltips, each as the pair of its place and its
/// text.
pub open spec fn labels_of(tips: Seq<Tooltip>) -> Seq<(Point, Seq<char>)> {
    Seq::new(tips.len(), |i: int| (tips[i].position, tips[i].text@))
}

/// The one-character text of a decimal digit.
fn digit_str(d: u32) -> (s: &'static str)
    requires
        d < 10,
    ensures
        s@ == seq![digit_char(d as int)],
{
    proof {
        reveal_strlit("0");
        reveal_strlit("1");
        reveal_strlit("2");
        reveal_strlit("3");
        reveal_strlit("4");
        reveal_strlit("5");
        reveal_strlit("6");
        reveal_strlit("7");
        reveal_strlit("8");
        reveal_strlit("9");
    }
    let s = if d == 0 {
        "0"
    } else if d == 1 {
        "1"
    } else if d == 2 {
        "2"
    } else if d == 3 {
        "3"
    } else if d == 4 {
        "4"
    } else if d == 5 {
        "5"
    } else if d == 6 {
        "6"
    } else if d == 7 {
        "7"
    } else if d == 8 {
        "8"
    } else {
        "9"
    };
    assert(s@ =~= seq![digit_char(d as int)]);
    s
}

/// Appends the decimal digits of `n` to `out`.
fn push_decimal_digits(out: &mut String, n: u32)
    ensures
        final(out)@ == old(out)@ + decimal_digits(n as nat),
    decreases n,
{
    if n >= 10 {
        push_decimal_digits(out, n / 10);
    }
    out.append(digit_str(n % 10));
    proof {
        if n >= 10 {
            assert(final(out)@ =~= old(out)@ + decimal_digits(n as nat));
        } else {
            assert(final(out)@ =~= old(out)@ + decimal_digits(n as nat));
        }
    }
}

/// Appends the decimal text of `n` to `out`.
pub fn push_decimal(out: &mut String, n: i32)
    ensures
        final(out)@ == old(out)@ + decimal_text(n as int),
{
    if n < 0 {
        proof {
            reveal_strlit("-");
        }
        out.append("-");
        let magnitude: u32 = (-(n as i64)) as u32;
        push_decimal_digits(out, magnitude);
        assert(final(out)@ =~= old(out)@ + decimal_text(n as int));
    } else {
        push_decimal_digits(out, n as u32);
    }
}

/// Builds the text shown for an entity with the given name and hit points.
pub fn label_for(name: &String, health: Option<i32>) -> (text: String)
    ensures
        text@ == label_text(name@, health),
{
    let mut text = name.clone();
    match health {
        Some(h) => {
            proof {
                reveal_strlit(" : ");
                reveal_strlit(" hp");
            }
            text.append(" : ");
            push_decimal(&mut text, h);
            text.append(" hp");
            assert(text@ =~= label_text(name@, health));
        },
        None => {},
    }
    text
}

/// Labels every entity that stands on the map cell under the mouse.
///
/// The mouse position is given in screen cells; adding the camera's top-left
/// corner turns it into map coordinates. Each label is placed at the mouse
/// position scaled to the tooltip layer, and reads `name : N hp` for an entity
/// with `N` hit points and just `name` for one without.
pub fn tooltips(entities: &Vec<Labelled>, mouse_pos: &Point, camera: &Camera) -> (tips: Vec<Tooltip>)
    requires
        i32::MIN <= label_position(*mouse_pos).0 <= i32::MAX,
        i32::MIN <= label_position(*mouse_pos).1 <= i32::MAX,
    ensures
        labels_of(tips@) == hover_labels(entities@, *mouse_pos, *camera),
{
    let map_x: i64 = mouse_pos.x as i64 + camera.left_x as i64;
    let map_y: i64 = mouse_pos.y as i64 + camera.top_y as i64;
    let screen_pos = Point { x: mouse_pos.x * TOOLTIP_SCALE, y: mouse_pos.y * TOOLTIP_SCALE };
    let mut tips: Vec<Tooltip> = Vec::new();
    let mut i: usize = 0;
    assert(labels_of(tips@) =~= hover_labels(entities@.take(0), *mouse_pos, *camera));
    while i < entities.len()
        invariant
            i <= entities.len(),
            map_x == mouse_pos.x + camera.left_x,
            map_y == mouse_pos.y + camera.top_y,
            screen_pos.x == label_position(*mouse_pos).0,
            screen_pos.y == label_position(*mouse_pos).1,
            labels_of(tips@) == hover_labels(entities@.take(i as int), *mouse_pos, *camera),
        decreases entities.len() - i,
    {
        let entity = &entities[i];
        let ghost before = tips@;
        proof {
            assert(entities@.take(i as int + 1).drop_last() == entities@.take(i as int));
            assert(entities@.take(i as int + 1).last() == entities@[i as int]);
        }
        if entity.position.x as i64 == map_x && entity.position.y as i64 == map_y {
            let text = label_for(&entity.name, entity.health);
            tips.push(Tooltip { position: screen_pos, text });
            assert(labels_of(tips@) =~= labels_of(before).push(
                (screen_pos, label_text(entity.name@, entity.health)),
            ));
        }
        i += 1;
    }
    proof {
        assert(entities@.take(i as int) == entities@);
    }
    tips
}

} // verus!
