use vstd::prelude::*;

verus! {

/// Fixed-size identifier of one commitment. Its lowercase hexadecimal form
/// doubles as the name of the directory that holds the commitment's store.
pub type Salt = [u8; 8];

/// Whether two salts hold the same bytes.
pub fn salt_eq(a: &Salt, b: &Salt) -> (r: bool)
    ensures
        r == (a@ == b@),
{
    let mut i: usize = 0;
    while i < 8
        invariant
            0 <= i <= 8,
            forall|j: int| 0 <= j < i ==> a@[j] == b@[j],
        decreases 8 - i,
    {
        if a[i] != b[i] {
            return false;
        }
        i += 1;
    }
    proof {
        assert(a@ =~= b@);
    }
    true
}

/// The lowercase hexadecimal character for one value below sixteen.
pub open spec fn hex_char(n: u8) -> char
    recommends
        n < 16,
{
    if n == 0 { '0' }
    else if n == 1 { '1' }
    else if n == 2 { '2' }
    else if n == 3 { '3' }
    else if n == 4 { '4' }
    else if n == 5 { '5' }
    else if n == 6 { '6' }
    else if n == 7 { '7' }
    else if n == 8 { '8' }
    else if n == 9 { '9' }
    else if n == 10 { 'a' }
    else if n == 11 { 'b' }
    else if n == 12 { 'c' }
    else if n == 13 { 'd' }
    else if n == 14 { 'e' }
    else { 'f' }
}

/// The lowercase hexadecimal rendering of a byte sequence: two characters per
/// byte, most significant half first.
pub open spec fn hex_chars_of(bytes: Seq<u8>) -> Seq<char> {
    Seq::new(
        2 * bytes.len(),
        |i: int| if i % 2 == 0 {
            hex_char((bytes[i / 2] / 16) as u8)
        } else {
            hex_char((bytes[i / 2] % 16) as u8)
        },
    )
}

/// Relies on `hex::encode`, which renders each input byte as two lowercase
/// hexadecimal digits, most significant half first.
#[verifier::external_body]
fn hex_encode_salt(salt: &Salt) -> (r: String)
    ensures
        r@.len() == 2 * salt@.len(),
        forall|i: int|
            0 <= i < salt@.len() ==> r@[2 * i] == hex_char((salt@[i] / 16) as u8) && r@[2 * i + 1]
                == hex_char((salt@[i] % 16) as u8),
{
    hex::encode(salt)
}

/// Name of the directory that holds the store of `salt`: the salt's bytes in
/// lowercase hexadecimal.
pub fn store_dir_name(salt: &Salt) -> (r: String)
    ensures
        r@ == hex_chars_of(salt@),
{
    let r = hex_encode_salt(salt);
    proof {
        assert forall|i: int| 0 <= i < r@.len() implies r@[i] == hex_chars_of(salt@)[i] by {
            if i % 2 == 0 {
                assert(i == 2 * (i / 2));
            } else {
                assert(i == 2 * (i / 2) + 1);
            }
        }
        assert(r@ =~= hex_chars_of(salt@));
    }
    r
}

} // verus!
