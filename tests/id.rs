use std::str::FromStr;
use uniprot::{entry_name, id_line, length, status, EntryStatus, IdLine, SyntaxError, UnknownStatus};

#[test]
fn entry_status_from_str_test() {
    assert_eq!(EntryStatus::from_str("Reviewed").unwrap(), EntryStatus::Reviewed);
    assert_eq!(EntryStatus::from_str("Unreviewed").unwrap(), EntryStatus::Unreviewed);
}

#[test]
fn entry_name_test() {
    assert_eq!(entry_name("CYC_BOVIN"), Ok(("", "CYC_BOVIN")));
    assert_eq!(entry_name("GIA2_GIALA"), Ok(("", "GIA2_GIALA")));
    assert!(entry_name("CYC").is_err());
    assert!(entry_name("CYC__").is_err());
    assert!(entry_name("CYC__BOVIN").is_err());
}

#[test]
fn status_test() {
    assert_eq!(status("Reviewed"), Ok(("", EntryStatus::Reviewed)));
    assert_eq!(status("Unreviewed"), Ok(("", EntryStatus::Unreviewed)));
    assert!(status("UnReviewed").is_err());
    assert!(status("viewed").is_err());
}

#[test]
fn length_test() {
    assert_eq!(length("104 AA"), Ok(("", 104)));
    assert!(length("104AA").is_err());
    assert!(length("104 B").is_err());
}

#[test]
fn id_line_test() {
    assert_eq!(
        id_line(
            "ID   CYC_BOVIN               Reviewed;         104 AA.
"
        ),
        Ok((
            "",
            IdLine {
                name: "CYC_BOVIN",
                status: EntryStatus::Reviewed,
                length: 104
            }
        ))
    );
    assert_eq!(
        id_line(
            "ID   GIA2_GIALA              Reviewed;         296 AA.
"
        ),
        Ok((
            "",
            IdLine {
                name: "GIA2_GIALA",
                status: EntryStatus::Reviewed,
                length: 296
            }
        ))
    );
    assert_eq!(
        id_line(
            "ID   Q5JU06_HUMAN            Unreviewed;       268 AA.
"
        ),
        Ok((
            "",
            IdLine {
                name: "Q5JU06_HUMAN",
                status: EntryStatus::Unreviewed,
                length: 268
            }
        ))
    );
}

#[test]
fn entry_status_from_str_rejects_other_text() {
    assert_eq!(EntryStatus::from_str("reviewed"), Err(UnknownStatus));
    assert_eq!(EntryStatus::from_str("Reviewed;"), Err(UnknownStatus));
    assert_eq!(EntryStatus::from_str(""), Err(UnknownStatus));
    assert_eq!(EntryStatus::from_name("Unreviewed"), Some(EntryStatus::Unreviewed));
    assert_eq!(EntryStatus::from_name("UnReviewed"), None);
}

#[test]
fn entry_name_part_lengths() {
    assert_eq!(entry_name("ABCDEFGHIJ_ABCDE"), Ok(("", "ABCDEFGHIJ_ABCDE")));
    assert_eq!(entry_name("ABCDE_ABCDEFG"), Ok(("FG", "ABCDE_ABCDE")));
    assert!(entry_name("ABCDEFGHIJK_A").is_err());
    assert!(entry_name("_BOVIN").is_err());
    assert!(entry_name("cyc_BOVIN").is_err());
    assert_eq!(entry_name("CYC_BOVIN rest"), Ok((" rest", "CYC_BOVIN")));
}

#[test]
fn status_leaves_rest() {
    assert_eq!(status("Reviewed;  "), Ok((";  ", EntryStatus::Reviewed)));
    assert_eq!(status("UnReviewed"), Err(SyntaxError { input: "UnReviewed" }));
}

#[test]
fn length_values_and_limits() {
    assert_eq!(length("0 AA."), Ok((".", 0)));
    assert_eq!(length("007\tAA"), Ok(("", 7)));
    assert_eq!(length("18446744073709551615 AA"), Ok(("", u64::MAX)));
    assert!(length("18446744073709551616 AA").is_err());
    assert!(length(" 104 AA").is_err());
    assert!(length("AA").is_err());
}

#[test]
fn id_line_rejects_deviations() {
    let bad = [
        "ID   CYC_BOVIN               UnReviewed;         104 AA.\n",
        "ID   CYC_BOVIN               Reviewed;         104AA.\n",
        "ID   CYC_BOVIN               Reviewed;         104 B.\n",
        "ID   CYC_BOVIN               Reviewed         104 AA.\n",
        "ID   CYC_BOVIN               Reviewed;         104 AA\n",
        "ID   CYC_BOVIN               Reviewed;         104 AA.",
        "ID   CYC_BOVIN               Reviewed;104 AA.\n",
        "ID   CYC_BOVINReviewed;         104 AA.\n",
        "IDCYC_BOVIN               Reviewed;         104 AA.\n",
        "ID   CYC__BOVIN               Reviewed;         104 AA.\n",
        "ID   CYC_BOVIN               Reviewed;         1x4 AA.\n",
    ];
    for input in bad {
        assert_eq!(id_line(input), Err(SyntaxError { input }));
    }
}

#[test]
fn id_line_consumes_one_line() {
    let input = "ID   CYC_BOVIN               Reviewed;         104 AA.\nAC   P00321;\n";
    let (rest, line) = id_line(input).unwrap();
    assert_eq!(rest, "AC   P00321;\n");
    assert_eq!(line.name, "CYC_BOVIN");
    assert_eq!(line.status, EntryStatus::Reviewed);
    assert_eq!(line.length, 104);
    assert!(id_line(rest).is_err());
}
