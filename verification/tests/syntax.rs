//! Grammar-rule tests: each rule applied to byte slices, checking the parsed
//! value, the count of bytes consumed, and error offsets.

use certdata::syntax::{
    attribute, comment, endl, hex_digit, hex_esc, multiline_octal, octal_digit, octal_esc,
    quad_digit, quoted_string, token, type_and_value, Parsed,
};
use certdata::Value;

#[test]
fn test_comment() {
    assert_eq!(comment(b"# thing"), Parsed::Found((), 7));
    assert_eq!(comment(b"#thing"), Parsed::Found((), 6));
    let accented = "# \u{fd}\u{177}\u{1ef3}".as_bytes();
    assert_eq!(comment(accented), Parsed::Found((), accented.len()));
    assert_eq!(comment(b"#"), Parsed::Found((), 1));
    assert_eq!(comment(b""), Parsed::Incomplete);
    assert_eq!(comment(b"# thing\n stuff"), Parsed::Found((), 7));
    assert_eq!(comment(b"bees"), Parsed::Failed(0));
    assert_eq!(comment(b" #bees"), Parsed::Failed(0));
}

#[test]
fn test_endl() {
    assert_eq!(endl(b"\n"), Parsed::Found((), 1));
    assert_eq!(endl(b"\r\n"), Parsed::Found((), 2));
    assert_eq!(endl(b"\n\n"), Parsed::Found((), 1));
    assert_eq!(endl(b"\n "), Parsed::Found((), 1));
    assert_eq!(endl(b" \n"), Parsed::Found((), 2));
    assert_eq!(endl(b"    \n"), Parsed::Found((), 5));
    assert_eq!(endl(b"\t\n"), Parsed::Found((), 2));
    assert_eq!(endl(b"# bees \n"), Parsed::Found((), 8));
    assert_eq!(endl(b"   # bees \n"), Parsed::Found((), 11));
    assert_eq!(endl(b"    bees \n"), Parsed::Failed(4));
    assert_eq!(endl(b"# bees"), Parsed::Incomplete);
}

#[test]
fn test_token() {
    assert_eq!(token(b"CK_TRUE"), Parsed::Found("CK_TRUE".to_owned(), 7));
    assert_eq!(token(b"UTF8"), Parsed::Found("UTF8".to_owned(), 4));
    assert_eq!(
        token(b"CKA_CERT_MD5_HASH"),
        Parsed::Found("CKA_CERT_MD5_HASH".to_owned(), 17)
    );
    assert_eq!(token(b"UTF8 "), Parsed::Found("UTF8".to_owned(), 4));
    assert_eq!(token(b"UTF8\n"), Parsed::Found("UTF8".to_owned(), 4));
    assert_eq!(token(b" UTF8"), Parsed::Failed(0));
    assert_eq!(token(b"\"UTF8\""), Parsed::Failed(0));
    assert_eq!(token(b"\\x41"), Parsed::Failed(0));
    assert_eq!(token(b"\\101"), Parsed::Failed(0));
    assert_eq!(token(b""), Parsed::Incomplete)
}

#[test]
fn test_digits() {
    assert_eq!(quad_digit(b"0"), Parsed::Found(0, 1));
    assert_eq!(octal_digit(b"0"), Parsed::Found(0, 1));
    assert_eq!(hex_digit(b"0"), Parsed::Found(0, 1));

    assert_eq!(quad_digit(b"00"), Parsed::Found(0, 1));
    assert_eq!(octal_digit(b"00"), Parsed::Found(0, 1));
    assert_eq!(hex_digit(b"00"), Parsed::Found(0, 1));

    assert_eq!(quad_digit(b"32"), Parsed::Found(3, 1));
    assert_eq!(octal_digit(b"76"), Parsed::Found(7, 1));
    assert_eq!(hex_digit(b"98"), Parsed::Found(9, 1));

    assert_eq!(quad_digit(b"4"), Parsed::Failed(0));
    assert_eq!(octal_digit(b"8"), Parsed::Failed(0));
    assert_eq!(hex_digit(b"g"), Parsed::Failed(0));
    assert_eq!(hex_digit(b"G"), Parsed::Failed(0));
    assert_eq!(hex_digit(b":"), Parsed::Failed(0));
    assert_eq!(hex_digit(b"@"), Parsed::Failed(0));

    assert_eq!(hex_digit(b"a"), Parsed::Found(10, 1));
    assert_eq!(hex_digit(b"A"), Parsed::Found(10, 1));
    assert_eq!(hex_digit(b"f"), Parsed::Found(15, 1));
    assert_eq!(hex_digit(b"F"), Parsed::Found(15, 1));
}

#[test]
fn test_octal_esc() {
    assert_eq!(octal_esc(b"\\000"), Parsed::Found(0o000, 4));
    assert_eq!(octal_esc(b"\\007"), Parsed::Found(0o007, 4));
    assert_eq!(octal_esc(b"\\077"), Parsed::Found(0o077, 4));
    assert_eq!(octal_esc(b"\\377"), Parsed::Found(0o377, 4));

    assert_eq!(octal_esc(b"\\"), Parsed::Incomplete);
    assert_eq!(octal_esc(b"\\0"), Parsed::Incomplete);
    assert_eq!(octal_esc(b"\\00"), Parsed::Incomplete);
    assert_eq!(octal_esc(b"\\0000"), Parsed::Found(0, 4));
    assert_eq!(octal_esc(b"\\3765"), Parsed::Found(0o376, 4));

    assert_eq!(octal_esc(b"\\080"), Parsed::Failed(2));
    assert_eq!(octal_esc(b"\\400"), Parsed::Failed(1));

    assert_eq!(octal_esc(b"\\x00"), Parsed::Failed(1));
    assert_eq!(octal_esc(b"A"), Parsed::Failed(0));
    assert_eq!(octal_esc(b" \\000"), Parsed::Failed(0));
}

#[test]
fn test_hex_esc() {
    assert_eq!(hex_esc(b"\\x00"), Parsed::Found(0x00, 4));
    assert_eq!(hex_esc(b"\\x0f"), Parsed::Found(0x0f, 4));
    assert_eq!(hex_esc(b"\\xf0"), Parsed::Found(0xf0, 4));

    assert_eq!(hex_esc(b"\\"), Parsed::Incomplete);
    assert_eq!(hex_esc(b"\\x"), Parsed::Incomplete);
    assert_eq!(hex_esc(b"\\x0"), Parsed::Incomplete);
    assert_eq!(hex_esc(b"\\x000"), Parsed::Found(0x00, 4));
    assert_eq!(hex_esc(b"\\xba9"), Parsed::Found(0xba, 4));

    assert_eq!(hex_esc(b"0x41"), Parsed::Failed(0));
    assert_eq!(hex_esc(b"\\000"), Parsed::Failed(0));
    assert_eq!(hex_esc(b"\\x0g"), Parsed::Failed(3));
}

#[test]
fn test_quoted_string() {
    assert_eq!(quoted_string(b"\"Stuff\""), Parsed::Found("Stuff".to_owned(), 7));
    let accented = "\"St\u{169}ff\"".as_bytes();
    assert_eq!(
        quoted_string(accented),
        Parsed::Found("St\u{169}ff".to_owned(), accented.len())
    );
    assert_eq!(quoted_string(b"\"a\"\"b\""), Parsed::Found("a".to_owned(), 3));

    assert_eq!(quoted_string(b"\"A\\x42\""), Parsed::Found("AB".to_owned(), 7));

    assert_eq!(quoted_string(b"UTF8"), Parsed::Failed(0));

    assert_eq!(quoted_string(b"\"A\\x82\""), Parsed::Failed(1));
    assert_eq!(quoted_string(b"\"A\\xce\""), Parsed::Failed(1));
    assert_eq!(
        quoted_string(b"\"A\\xce\\xbb\""),
        Parsed::Found("A\u{3bb}".to_owned(), 11)
    );

    assert_eq!(quoted_string(b"\"A\\\\B\""), Parsed::Failed(2));
    assert_eq!(quoted_string(b"\"A\\\"B\""), Parsed::Failed(2));
    assert_eq!(quoted_string(b"\"A\\102\""), Parsed::Failed(2));

    let raiz = b"\"AC Ra\\xC3\\xADz\"";
    assert_eq!(
        quoted_string(raiz),
        Parsed::Found("AC Ra\u{ed}z".to_owned(), raiz.len())
    );
    let hungarian = "\"F\u{151}tan\u{fa}s\u{ed}tv\u{e1}ny\"".as_bytes();
    assert_eq!(
        quoted_string(hungarian),
        Parsed::Found("F\u{151}tan\u{fa}s\u{ed}tv\u{e1}ny".to_owned(), hungarian.len())
    );
}

#[test]
fn test_multiline_octal() {
    assert_eq!(multiline_octal(b"\\101"), Parsed::Found(vec![65], 4));
    assert_eq!(multiline_octal(b"\\101\\033"), Parsed::Found(vec![65, 27], 8));
    assert_eq!(multiline_octal(b"\\101\n\\033"), Parsed::Found(vec![65, 27], 9));
    assert_eq!(multiline_octal(b"\\101\\033\n"), Parsed::Incomplete);
    assert_eq!(multiline_octal(b"\n\\101\\033"), Parsed::Found(vec![65, 27], 9));
    assert_eq!(
        multiline_octal(b"\\101\n\n\n\n\n\n\\033"),
        Parsed::Found(vec![65, 27], 14)
    );
    assert_eq!(
        multiline_octal(b"\\101\r\n\r\n\r\n\\033"),
        Parsed::Found(vec![65, 27], 14)
    );
    assert_eq!(multiline_octal(b"\\101 \\033"), Parsed::Found(vec![65, 27], 9));
    let commented = b"\\101 # Sixty-five \n\t\\033";
    assert_eq!(
        multiline_octal(commented),
        Parsed::Found(vec![65, 27], commented.len())
    );
    assert_eq!(multiline_octal(b"\\101\\033\nEND"), Parsed::Found(vec![65, 27], 8));
    assert_eq!(
        multiline_octal(b"\\101\\033\n   END"),
        Parsed::Found(vec![65, 27], 8)
    );
}

#[test]
fn test_token_value() {
    let tok = |ty: &str, v: &str| Value::Token(ty.to_owned(), v.to_owned());
    assert_eq!(
        type_and_value(b"CK_BBOOL CK_TRUE\n"),
        Parsed::Found(tok("CK_BBOOL", "CK_TRUE"), 17)
    );
    let padded = b"CK_BBOOL   \t   CK_TRUE\n";
    assert_eq!(
        type_and_value(padded),
        Parsed::Found(tok("CK_BBOOL", "CK_TRUE"), padded.len())
    );
    assert_eq!(
        type_and_value(b"CK_BBOOL CK_TRUE\n\n"),
        Parsed::Found(tok("CK_BBOOL", "CK_TRUE"), 17)
    );
    assert_eq!(
        type_and_value(b"CK_BBOOL CK_TRUE \n "),
        Parsed::Found(tok("CK_BBOOL", "CK_TRUE"), 18)
    );
    let commented = b"CK_BBOOL CK_TRUE # Very true. Wow. \n";
    assert_eq!(
        type_and_value(commented),
        Parsed::Found(tok("CK_BBOOL", "CK_TRUE"), commented.len())
    );
    assert_eq!(type_and_value(b"CK_BBOOL CK_TRUE"), Parsed::Incomplete);
    assert!(matches!(
        type_and_value(b"CK_BBOOL\nCK_TRUE\n"),
        Parsed::Failed(_)
    ));

    assert_eq!(type_and_value(b"UTF8 CK_TRUE\n"), Parsed::Failed(5));
    assert_eq!(type_and_value(b"MULTILINE_OCTAL CK_TRUE\n"), Parsed::Failed(16));
}

#[test]
fn test_string_value() {
    assert_eq!(
        type_and_value(b"UTF8 \"0\"\n"),
        Parsed::Found(Value::String("0".to_owned()), 9)
    );
    let addons = b"UTF8 \"Bogus Mozilla Addons\"\n";
    assert_eq!(
        type_and_value(addons),
        Parsed::Found(Value::String("Bogus Mozilla Addons".to_owned()), addons.len())
    );

    assert!(matches!(type_and_value(b"UTF8\n\"0\"\n"), Parsed::Failed(_)));
    assert!(matches!(
        type_and_value(b"CK_OBJECT_CLASS \"0\"\n"),
        Parsed::Failed(_)
    ));
    assert!(matches!(
        type_and_value(b"MULTILINE_OCTAL \"0\"\n"),
        Parsed::Failed(_)
    ));

    assert_eq!(type_and_value(b"UTF8   "), Parsed::Incomplete);
    assert_eq!(type_and_value(b"UTF8 \""), Parsed::Incomplete);
    assert_eq!(type_and_value(b"UTF8 \"x\""), Parsed::Incomplete);
}

#[test]
fn test_octal_value() {
    let input: &[u8] = b"MULTILINE_OCTAL\n\\000\\001\\002\n\\010\\011\\012\nEND\n";
    assert_eq!(
        type_and_value(input),
        Parsed::Found(Value::Binary(vec![0, 1, 2, 8, 9, 10]), input.len())
    )
}

#[test]
fn test_attr() {
    let input: &[u8] = b"# This is a thing.\nCKA_CLASS CK_OBJECT_CLASS CKO_CERTIFICATE\n";
    assert_eq!(
        attribute(input),
        Parsed::Found(
            (
                "CKA_CLASS".to_owned(),
                Value::Token("CK_OBJECT_CLASS".to_owned(), "CKO_CERTIFICATE".to_owned())
            ),
            input.len()
        )
    );

    let serial: &[u8] = b"CKA_SERIAL_NUMBER MULTILINE_OCTAL\n\\002\\004\\011\\023\\310\\251\nEND\n";
    assert_eq!(
        attribute(serial),
        Parsed::Found(
            (
                "CKA_SERIAL_NUMBER".to_owned(),
                Value::Binary(vec![0x02, 4, 0x9, 0x13, 0xc8, 0xa9])
            ),
            serial.len()
        )
    );
}
