//! Which field of a record type is its key, chosen by the type's declaration:
//! its `name = "value"` attributes and the names of its fields.
use vstd::prelude::*;

verus! {

/// The attribute that names the key field.
pub const KEY_ATTRIBUTE: &'static str = "key";

/// Why no key field could be chosen for a record type.
#[derive(Debug, PartialEq, Eq, Structural)]
pub enum KeyFieldError {
    /// The declaration has no key attribute.
    NoKeyAttribute,
    /// The key attribute names no field of the type.
    NoSuchField,
}

/// The attributes as name and value text.
pub open spec fn attrs_view(attrs: Seq<(String, String)>) -> Seq<(Seq<char>, Seq<char>)> {
    attrs.map_values(|a: (String, String)| (a.0@, a.1@))
}

/// The value of the last attribute called `name`: a later one replaces an
/// earlier one.
pub open spec fn attribute_value(attrs: Seq<(Seq<char>, Seq<char>)>, name: Seq<char>) -> Option<Seq<char>>
    decreases attrs.len(),
{
    if attrs.len() == 0 {
        None
    } else if attrs.last().0 == name {
        Some(attrs.last().1)
    } else {
        attribute_value(attrs.drop_last(), name)
    }
}

/// The value of the last attribute called `name`, if there is one.
pub fn find_attr_value<'a>(attrs: &'a Vec<(String, String)>, name: &String) -> (r: Option<&'a String>)
    ensures
        match r {
            Some(v) => attribute_value(attrs_view(attrs@), name@) == Some(v@),
            None => attribute_value(attrs_view(attrs@), name@) is None,
        },
{
    let mut i: usize = attrs.len();
    proof {
        assert(attrs@.take(i as int) =~= attrs@);
    }
    while i > 0
        invariant
            i <= attrs@.len(),
            attribute_value(attrs_view(attrs@), name@) == attribute_value(attrs_view(attrs@.take(i as int)), name@),
        decreases i,
    {
        let ghost prefix = attrs_view(attrs@.take(i as int));
        proof {
            assert(attrs_view(attrs@.take(i - 1)) =~= prefix.drop_last());
            assert(prefix.last() == (attrs@[i - 1].0@, attrs@[i - 1].1@));
        }
        if attrs[i - 1].0 == *name {
            return Some(&attrs[i - 1].1);
        }
        i = i - 1;
    }
    proof {
        assert(attrs_view(attrs@.take(0)) =~= Seq::<(Seq<char>, Seq<char>)>::empty());
    }
    None
}

/// The index of the key field among `fields`: the first field called as the
/// key attribute says.
pub fn find_key_field(fields: &Vec<String>, attrs: &Vec<(String, String)>) -> (r: Result<usize, KeyFieldError>)
    ensures
        match r {
            Ok(i) => i < fields@.len()
                && attribute_value(attrs_view(attrs@), KEY_ATTRIBUTE@) == Some(fields@[i as int]@)
                && forall|j: int| 0 <= j < i ==> fields@[j]@ != fields@[i as int]@,
            Err(KeyFieldError::NoKeyAttribute) => attribute_value(attrs_view(attrs@), KEY_ATTRIBUTE@) is None,
            Err(KeyFieldError::NoSuchField) => attribute_value(attrs_view(attrs@), KEY_ATTRIBUTE@) is Some
                && forall|j: int| 0 <= j < fields@.len()
                    ==> fields@[j]@ != attribute_value(attrs_view(attrs@), KEY_ATTRIBUTE@)->Some_0,
        },
{
    let key_name = KEY_ATTRIBUTE.to_owned();
    let target = match find_attr_value(attrs, &key_name) {
        Some(v) => v,
        None => return Err(KeyFieldError::NoKeyAttribute),
    };
    let mut i: usize = 0;
    while i < fields.len()
        invariant
            i <= fields@.len(),
            attribute_value(attrs_view(attrs@), KEY_ATTRIBUTE@) == Some(target@),
            forall|j: int| 0 <= j < i ==> fields@[j]@ != target@,
        decreases fields@.len() - i,
    {
        if fields[i] == *target {
            assert(fields@[i as int]@ == target@);
            return Ok(i);
        }
        i = i + 1;
    }
    Err(KeyFieldError::NoSuchField)
}

} // verus!
