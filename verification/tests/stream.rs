use csvview::formatter::StreamingFormatter;

#[test]
fn malformed_row_after_ten_valid_rows_stops_the_run() {
    let mut data = String::from("a,b\n");
    for i in 0..10 {
        data.push_str(&format!("x{},y{}\n", i, i));
    }
    data.push_str("bad1,bad2,bad3\n");
    data.push_str("never,seen\n");

    let mut rdr = csv::Reader::from_reader(data.as_bytes());
    let headers: Vec<String> = rdr.headers().unwrap().iter().map(|f| f.to_string()).collect();
    let mut fmt = StreamingFormatter::new(headers, 5);
    let mut emitted: Vec<String> = Vec::new();
    let mut failure = None;
    for result in rdr.records() {
        match result {
            Ok(record) => {
                let fields: Vec<String> = record.iter().map(|f| f.to_string()).collect();
                for line in fmt.push(fields) {
                    emitted.push(line);
                }
            }
            Err(e) => {
                failure = Some(e);
                break;
            }
        }
    }

    assert!(failure.is_some());
    assert_eq!(emitted.len(), 11);
    assert!(emitted.iter().all(|l| !l.contains("bad") && !l.contains("never")));
}

#[test]
fn well_formed_stream_emits_every_record_once() {
    let mut data = String::from("name,width\n");
    for i in 0..20 {
        data.push_str(&format!("row{},{}\n", i, i));
    }
    let mut rdr = csv::Reader::from_reader(data.as_bytes());
    let headers: Vec<String> = rdr.headers().unwrap().iter().map(|f| f.to_string()).collect();
    let mut fmt = StreamingFormatter::new(headers, 8);
    let mut emitted: Vec<String> = Vec::new();
    for result in rdr.records() {
        let record = result.unwrap();
        let fields: Vec<String> = record.iter().map(|f| f.to_string()).collect();
        for line in fmt.push(fields) {
            emitted.push(line);
        }
    }
    for line in fmt.finish() {
        emitted.push(line);
    }
    assert_eq!(emitted.len(), 21);
    assert_eq!(emitted[0], "\"name\"  \"width\"  \n");
    for i in 0..20 {
        assert!(emitted[i + 1].starts_with(&format!("\"row{}\"", i)));
        assert!(emitted[i + 1].ends_with("\n"));
    }
}
