use just_enough_vcs::hex_display::{hex_display_slice, hex_display_vec};

#[test]
fn hex_display_empty() {
    assert_eq!(hex_display_slice(&[]), "");
    assert_eq!(hex_display_vec(Vec::new()), "");
}

#[test]
fn hex_display_short_line() {
    assert_eq!(
        hex_display_slice(b"Hello, World!\n"),
        "00000000  48 65 6c 6c 6f 2c 20 57  6f 72 6c 64 21 0a        |Hello, World!.  |"
    );
}

#[test]
fn hex_display_full_line() {
    let bytes: Vec<u8> = (0u8..16).collect();
    assert_eq!(
        hex_display_vec(bytes),
        "00000000  00 01 02 03 04 05 06 07  08 09 0a 0b 0c 0d 0e 0f  |................|"
    );
}

#[test]
fn hex_display_two_lines() {
    let bytes: Vec<u8> = (0u8..20).collect();
    assert_eq!(
        hex_display_slice(&bytes),
        "00000000  00 01 02 03 04 05 06 07  08 09 0a 0b 0c 0d 0e 0f  |................|\n\
         00000010  10 11 12 13                                       |....            |"
    );
}
