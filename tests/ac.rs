use uniprot::{ac_line, accession, SyntaxError};

#[test]
fn accession_test() {
    assert_eq!(accession("P12345"), Ok(("", "P12345")));
    assert_eq!(accession("Q1AAA9"), Ok(("", "Q1AAA9")));
    assert_eq!(accession("O456A1"), Ok(("", "O456A1")));
    assert_eq!(accession("P4A123"), Ok(("", "P4A123")));
    assert_eq!(accession("A0A022YWF9"), Ok(("", "A0A022YWF9")));
    assert!(accession("10AAA0").is_err());
    assert!(accession("AAAAA0").is_err());
    assert!(accession("A0AAAA").is_err());
    assert!(accession("O0AAAA").is_err());
}

#[test]
fn ac_line_test() {
    assert_eq!(ac_line("AC   P00321;\n"), Ok(("", vec!("P00321"))));
    assert_eq!(
        ac_line(
            "AC   Q16653; O00713; O00714; O00715; Q13054; Q13055; Q14855; Q92891;
AC   Q92892; Q92893; Q92894; Q92895; Q93053; Q96KU9; Q96KV0; Q96KV1;
AC   Q99605;
"
        ),
        Ok((
            "",
            vec!(
                "Q16653", "O00713", "O00714", "O00715", "Q13054", "Q13055", "Q14855", "Q92891",
                "Q92892", "Q92893", "Q92894", "Q92895", "Q93053", "Q96KU9", "Q96KV0", "Q96KV1",
                "Q99605"
            )
        ))
    );
}

#[test]
fn accession_long_family_takes_both_blocks() {
    assert_eq!(accession("A0A022YWF9;"), Ok((";", "A0A022YWF9")));
    assert_eq!(accession("Z9Z9Z9"), Ok(("", "Z9Z9Z9")));
    assert_eq!(accession("N1B2C3D4E5"), Ok(("", "N1B2C3D4E5")));
}

#[test]
fn accession_long_family_falls_back_to_six() {
    assert_eq!(accession("A0AAA0A00"), Ok(("A00", "A0AAA0")));
    assert_eq!(accession("R5ABC1x"), Ok(("x", "R5ABC1")));
}

#[test]
fn accession_short_family_is_six_characters() {
    assert_eq!(accession("Q1AAA9AAA9"), Ok(("AAA9", "Q1AAA9")));
    assert_eq!(accession("O00713;"), Ok((";", "O00713")));
}

#[test]
fn accession_rejects_short_digit_and_lowercase_starts() {
    assert_eq!(accession("P1234"), Err(SyntaxError { input: "P1234" }));
    assert_eq!(accession(""), Err(SyntaxError { input: "" }));
    assert_eq!(accession("1P2345"), Err(SyntaxError { input: "1P2345" }));
    assert_eq!(accession("p12345"), Err(SyntaxError { input: "p12345" }));
    assert!(accession("a0A022YWF9").is_err());
}

#[test]
fn accession_leaves_extra_characters() {
    assert_eq!(accession("A0AAA000000"), Ok(("00000", "A0AAA0")));
    assert_eq!(accession("A0AAA0A000A"), Ok(("A", "A0AAA0A000")));
}

#[test]
fn ac_line_rejects_eleven_character_token() {
    assert_eq!(
        ac_line("AC   A0AAA000000;\n"),
        Err(SyntaxError { input: "AC   A0AAA000000;\n" })
    );
    assert!(ac_line("AC   A0AAA0A000A;\n").is_err());
}

#[test]
fn ac_line_two_lines_keep_order() {
    let input = "AC   Q16653; O00713; O00714; O00715; Q13054; Q13055; Q14855; Q92891;\nAC   Q92892;\n";
    assert_eq!(
        ac_line(input),
        Ok((
            "",
            vec!(
                "Q16653", "O00713", "O00714", "O00715", "Q13054", "Q13055", "Q14855", "Q92891",
                "Q92892"
            )
        ))
    );
}

#[test]
fn ac_line_rejects_nine_tokens_on_one_line() {
    let input =
        "AC   Q16653; O00713; O00714; O00715; Q13054; Q13055; Q14855; Q92891; Q92892;\n";
    assert_eq!(ac_line(input), Err(SyntaxError { input }));
}

#[test]
fn ac_line_takes_eight_tokens_on_one_line() {
    let input = "AC   Q16653; O00713; O00714; O00715; Q13054; Q13055; Q14855; Q92891;\n";
    assert_eq!(ac_line(input).map(|(rest, v)| (rest, v.len())), Ok(("", 8)));
}

#[test]
fn ac_line_stops_at_first_other_line() {
    let input = "AC   P00321; Q99605;\nDE   RecName: Full=Cytochrome c;\n";
    assert_eq!(
        ac_line(input),
        Ok(("DE   RecName: Full=Cytochrome c;\n", vec!("P00321", "Q99605")))
    );
    let bad_second = "AC   P00321;\nAC   P0032;\n";
    assert_eq!(ac_line(bad_second), Ok(("AC   P0032;\n", vec!("P00321"))));
}

#[test]
fn ac_line_needs_one_line() {
    assert!(ac_line("").is_err());
    assert!(ac_line("ID   CYC_BOVIN\n").is_err());
    assert!(ac_line("AC P00321\n").is_err());
    assert!(ac_line("AC   P00321;").is_err());
    assert!(ac_line("ACP00321;\n").is_err());
    assert!(ac_line("AC   P00321; \n").is_err());
}

#[test]
fn ac_line_blanks_and_duplicates() {
    assert_eq!(
        ac_line("AC\tP00321;P00321;  Q99605;\n"),
        Ok(("", vec!("P00321", "P00321", "Q99605")))
    );
}

#[test]
fn ac_line_remainder_is_not_matched_again() {
    let (rest, v) = ac_line("AC   P00321;\nOS   Bos taurus.\n").unwrap();
    assert_eq!(v, vec!("P00321"));
    assert_eq!(rest, "OS   Bos taurus.\n");
    assert!(ac_line(rest).is_err());
}
