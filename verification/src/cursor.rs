use std::io::Cursor;
use vstd::prelude::*;

verus! {

#[verifier::external_type_specification]
#[verifier::external_body]
#[verifier::reject_recursive_types(T)]
pub struct ExCursor<T>(Cursor<T>);

/// The bytes that a cursor over a byte slice reads from.
pub uninterp spec fn cursor_data(c: Cursor<&[u8]>) -> Seq<u8>;

/// The position of a cursor over a byte slice.
pub uninterp spec fn cursor_pos(c: Cursor<&[u8]>) -> u64;

/// `Cursor::new`: a cursor over `data`, at position 0.
#[verifier::external_body]
pub fn cursor_new(data: &[u8]) -> (c: Cursor<&[u8]>)
    ensures
        cursor_data(c) == data@,
        cursor_pos(c) == 0,
{
    Cursor::new(data)
}

/// `Cursor::position`: the cursor's current position.
#[verifier::external_body]
pub fn cursor_position(c: &Cursor<&[u8]>) -> (p: u64)
    ensures
        p == cursor_pos(*c),
{
    c.position()
}

/// `Cursor::set_position`: moves the cursor, the bytes stay as they are.
#[verifier::external_body]
pub fn cursor_set_position(c: &mut Cursor<&[u8]>, p: u64)
    ensures
        cursor_pos(*final(c)) == p,
        cursor_data(*final(c)) == cursor_data(*old(c)),
{
    c.set_position(p)
}

/// `Cursor::get_ref`: the bytes under the cursor.
#[verifier::external_body]
pub fn cursor_get_ref<'a>(c: &Cursor<&'a [u8]>) -> (r: &'a [u8])
    ensures
        r@ == cursor_data(*c),
{
    *c.get_ref()
}

} // verus!
