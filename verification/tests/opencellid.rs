use rayhunter::opencellid::OpenCellIdIndex;

const HEADER: &str =
    "radio,mcc,net,area,cell,unit,lon,lat,range,samples,changeable,created,updated,averageSignal";

fn sample_index() -> OpenCellIdIndex {
    let csv = format!(
        "{HEADER}\nLTE,310,410,8840,41733647,0,-86.7354,36.2672,8495,35,1,1459813692,1592436590,0\n\
         UMTS,310,260,10,1234,0,-86.5,36.1,1000,2,1,1459813692,1592436590,0\n"
    );
    OpenCellIdIndex::parse(&csv)
}

#[test]
fn looks_up_a_known_row() {
    let index = sample_index();
    // LTE,310,410,8840,41733647,0,-86.7354,36.2672,8495,35,1,...
    let tower = index.lookup("310-410", 41733647).expect("row should exist");
    assert_eq!(tower.radio, "LTE");
    assert_eq!(tower.lat.parse::<f64>().unwrap(), 36.2672);
    assert_eq!(tower.lon.parse::<f64>().unwrap(), -86.7354);
    assert_eq!(tower.range_m, 8495);
}

#[test]
fn missing_cell_is_none() {
    let index = sample_index();
    assert!(index.lookup("310-410", u32::MAX).is_none());
    assert!(index.lookup("999-999", 1).is_none());
}

#[test]
fn counts_rows_after_the_header() {
    let index = sample_index();
    assert_eq!(index.len(), 2);
    assert!(!index.is_empty());
    let empty = OpenCellIdIndex::parse(HEADER);
    assert_eq!(empty.len(), 0);
    assert!(empty.is_empty());
    assert!(OpenCellIdIndex::parse("").is_empty());
}

#[test]
fn skips_rows_that_do_not_parse() {
    let csv = format!(
        "{HEADER}\n\
         LTE,310,410,1,1,0,-86.7,36.2\n\
         LTE,70000,410,1,2,0,-86.7,36.2,100\n\
         LTE,310,410,1,3,0,east,36.2,100\n\
         LTE,310,410,1,4,0,-86.7,36.2,-5\n\
         LTE, 310,410,1,5,0,-86.7,36.2,100\n\
         LTE,310,410,1,6,0,.,36.2,100\n\
         LTE,310,410,1,7,0,1e,36.2,100\n\
         LTE,310,410,1,8,0,-86.7,36.2,100\n"
    );
    let index = OpenCellIdIndex::parse(&csv);
    assert_eq!(index.len(), 1);
    for cell in 1..8 {
        assert!(index.lookup("310-410", cell).is_none(), "cell {cell}");
    }
    assert!(index.lookup("310-410", 8).is_some());
}

#[test]
fn accepts_what_std_number_parsing_accepts() {
    let csv = format!(
        "{HEADER}\r\n\
         GSM,+310,0410,1,1,0,1e5,-inf,+100\r\n\
         GSM,310,410,1,2,0,.5,5.,0\r\n\
         GSM,310,410,1,3,0,NaN,Infinity,4294967295\r\n\
         GSM,310,410,1,4,0,-1.5E-3,+0,7"
    );
    let index = OpenCellIdIndex::parse(&csv);
    assert_eq!(index.len(), 4);
    let t = index.lookup("310-410", 1).unwrap();
    assert_eq!(t.radio, "GSM");
    assert_eq!(t.lon, "1e5");
    assert_eq!(t.lat, "-inf");
    assert_eq!(t.range_m, 100);
    assert_eq!(index.lookup("310-410", 3).unwrap().range_m, u32::MAX);
    // The last line has no line ending and keeps all of its text.
    assert_eq!(index.lookup("310-410", 4).unwrap().range_m, 7);
}

#[test]
fn a_later_row_replaces_an_earlier_one() {
    let csv = format!("{HEADER}\nLTE,1,2,0,3,0,0,0,10\nUMTS,1,2,0,3,0,0,0,20\n");
    let index = OpenCellIdIndex::parse(&csv);
    assert_eq!(index.len(), 1);
    let t = index.lookup("1-2", 3).unwrap();
    assert_eq!(t.radio, "UMTS");
    assert_eq!(t.range_m, 20);
}

#[test]
fn plmn_text_must_be_canonical() {
    let csv = format!("{HEADER}\nLTE,310,10,0,3,0,0,0,10\n");
    let index = OpenCellIdIndex::parse(&csv);
    assert!(index.lookup("310-10", 3).is_some());
    assert!(index.lookup("310-010", 3).is_none());
    assert!(index.lookup("0310-10", 3).is_none());
    assert!(index.lookup("+310-10", 3).is_none());
    assert!(index.lookup("31010", 3).is_none());
    assert!(index.lookup("310-10-", 3).is_none());
    assert!(index.lookup("", 3).is_none());
}

#[test]
fn a_carriage_return_only_ends_a_line_before_a_newline() {
    let csv = format!("{HEADER}\nLTE,1,2,0,3,0,0,0,10\r");
    let index = OpenCellIdIndex::parse(&csv);
    // "10\r" is not a number, so the last row is skipped.
    assert!(index.is_empty());
}

#[test]
fn a_final_line_ending_is_optional() {
    let body = format!("{HEADER}\nLTE,1,2,0,3,0,0,0,10");
    for csv in [body.clone(), format!("{body}\n"), format!("{body}\r\n")] {
        let index = OpenCellIdIndex::parse(&csv);
        assert_eq!(index.len(), 1);
        assert_eq!(index.lookup("1-2", 3).unwrap().range_m, 10);
    }
}
