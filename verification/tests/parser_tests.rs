use seatsim::parser::parse_customers;

#[test]
fn parses_one_record_with_header() {
    let csv = "id,arrival,type,size,baby,wheel,duration\n1,0,family,4,true,false,30\n";
    let v = parse_customers(csv).unwrap();
    assert_eq!(v.len(), 1);
    let c = &v[0];
    assert_eq!(c.id, 1);
    assert_eq!(c.family_id, 1);
    assert_eq!(c.arrival_time, 0);
    assert_eq!(c.type_, "FAMILY");
    assert_eq!(c.party_size, 4);
    assert_eq!(c.baby_chair_count, 1);
    assert_eq!(c.wheelchair_count, 0);
    assert_eq!(c.est_dining_time, 30);
}

#[test]
fn skips_empty_and_short_lines() {
    let csv = "1,0,A,1,0,0,10\n\n   \n2,5\n3,7,B,2,0,0,20\n";
    let v = parse_customers(csv).unwrap();
    assert_eq!(v.len(), 2);
    assert_eq!(v[0].id, 1);
    assert_eq!(v[1].id, 3);
    assert_eq!(v[1].arrival_time, 7);
}

#[test]
fn skips_zero_or_missing_id() {
    let csv = "0,0,A,1,0,0,10\nx,0,A,1,0,0,10\n5,0,A,1,0,0,10\n";
    let v = parse_customers(csv).unwrap();
    assert_eq!(v.len(), 1);
    assert_eq!(v[0].id, 5);
}

#[test]
fn header_detection_is_case_insensitive_and_first_line_only() {
    let csv = "ID,arrival,type\n7,0,a,1,0,0,10\n";
    let v = parse_customers(csv).unwrap();
    assert_eq!(v.len(), 1);
    assert_eq!(v[0].id, 7);
    // a later line starting with "id" is not a header; it is malformed and
    // its id field does not parse, so it is skipped for that reason
    let csv2 = "9,0,a,1,0,0,10\nid,arrival,type,size,baby,wheel,duration\n";
    let v2 = parse_customers(csv2).unwrap();
    assert_eq!(v2.len(), 1);
    assert_eq!(v2[0].id, 9);
}

#[test]
fn malformed_fields_fall_back_to_defaults() {
    let csv = "4,zz,T,hmm,nope,false,bad\n";
    let v = parse_customers(csv).unwrap();
    assert_eq!(v.len(), 1);
    let c = &v[0];
    assert_eq!(c.arrival_time, 0);
    assert_eq!(c.party_size, 1);
    assert_eq!(c.baby_chair_count, 0);
    assert_eq!(c.wheelchair_count, 0);
    assert_eq!(c.est_dining_time, 60);
}

#[test]
fn consumable_fields_accept_true_and_counts() {
    let csv = "1,0,A,2,TRUE,2,15\n2,0,A,2,3,True,15\n";
    let v = parse_customers(csv).unwrap();
    assert_eq!(v[0].baby_chair_count, 1);
    assert_eq!(v[0].wheelchair_count, 2);
    assert_eq!(v[1].baby_chair_count, 3);
    assert_eq!(v[1].wheelchair_count, 1);
}

#[test]
fn trims_whitespace_and_uppercases_type() {
    let csv = "  8 , 3 ,  solo , 1 , 0 , 0 , 12 \n";
    let v = parse_customers(csv).unwrap();
    let c = &v[0];
    assert_eq!(c.id, 8);
    assert_eq!(c.arrival_time, 3);
    assert_eq!(c.type_, "SOLO");
    assert_eq!(c.est_dining_time, 12);
}

#[test]
fn accepts_plus_sign_and_rejects_overflow() {
    let csv = "1,+42,A,1,0,0,+9\n2,99999999999999999999999,A,4294967296,0,0,18446744073709551616\n";
    let v = parse_customers(csv).unwrap();
    assert_eq!(v[0].arrival_time, 42);
    assert_eq!(v[0].est_dining_time, 9);
    // values past the integer limits fall back to the defaults
    assert_eq!(v[1].arrival_time, 0);
    assert_eq!(v[1].party_size, 1);
    assert_eq!(v[1].est_dining_time, 60);
}

#[test]
fn empty_input_gives_no_customers() {
    assert_eq!(parse_customers("").unwrap().len(), 0);
    assert_eq!(parse_customers("\n\n").unwrap().len(), 0);
}
