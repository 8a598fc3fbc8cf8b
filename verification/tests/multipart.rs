use tcp_ais_broker::multipart::{compute_affinity_key, parse_ais_multipart, AisMultipartInfo};

#[test]
fn single_fragment_sentence() {
    let info = parse_ais_multipart("!AIVDM,1,1,,A,15Mvq@001oJr>tpE>R0?wvlN0<0u,0*5C\r\n").unwrap();
    assert_eq!(info.total_fragments, 1);
    assert_eq!(info.fragment_number, 1);
    assert_eq!(info.sequential_id, "");
    assert_eq!(info.channel, "A");
    assert_eq!(compute_affinity_key(&info), None);
}

#[test]
fn multipart_fragments_share_key() {
    let a = parse_ais_multipart("!AIVDM,2,1,7,A,55NBsv02>tJ4,0*1A\r\n").unwrap();
    let b = parse_ais_multipart("!AIVDM,2,2,7,A,88888888880,2*25\r\n").unwrap();
    assert_eq!(a.total_fragments, 2);
    assert_eq!(a.fragment_number, 1);
    assert_eq!(b.fragment_number, 2);
    assert_eq!(a.sequential_id, "7");
    assert_eq!(compute_affinity_key(&a), Some("7A".to_string()));
    assert_eq!(compute_affinity_key(&a), compute_affinity_key(&b));
}

#[test]
fn vdo_sentences_count() {
    let info = parse_ais_multipart("!AIVDO,2,1,3,B,payload,0*00").unwrap();
    assert_eq!(compute_affinity_key(&info), Some("3B".to_string()));
}

#[test]
fn non_ais_lines_are_rejected() {
    assert!(parse_ais_multipart("$GPGGA,1,2,3,4,5,6,7\r\n").is_none());
    assert!(parse_ais_multipart("!AIXXX,2,1,7,A,p,0*00").is_none());
    assert!(parse_ais_multipart("!AIVDM,2,1,7,A,p").is_none());
    assert!(parse_ais_multipart("").is_none());
    assert!(parse_ais_multipart("\r\n").is_none());
    assert!(parse_ais_multipart("!VD,2,1,7,A,p,0").is_none());
}

#[test]
fn unparsable_counts_default_to_one() {
    let info = parse_ais_multipart("!AIVDM,x,,5,A,p,0*00").unwrap();
    assert_eq!(info.total_fragments, 1);
    assert_eq!(info.fragment_number, 1);
    assert_eq!(compute_affinity_key(&info), None);
    let info = parse_ais_multipart("!AIVDM,256,-1,5,A,p,0*00").unwrap();
    assert_eq!(info.total_fragments, 1);
    assert_eq!(info.fragment_number, 1);
    let info = parse_ais_multipart("!AIVDM,+3,002,5,A,p,0*00").unwrap();
    assert_eq!(info.total_fragments, 3);
    assert_eq!(info.fragment_number, 2);
    let info = parse_ais_multipart("!AIVDM,+,255,5,A,p,0*00").unwrap();
    assert_eq!(info.total_fragments, 1);
    assert_eq!(info.fragment_number, 255);
}

#[test]
fn only_trailing_line_ends_are_trimmed() {
    let info = parse_ais_multipart("!AIVDM,2,1,9,B,p,0*00\n\r\n").unwrap();
    assert_eq!(info.channel, "B");
    assert!(parse_ais_multipart("\n!AIVDM,2,1,9,B,p,0*00").is_none());
}

#[test]
fn extra_fields_are_ignored() {
    let info = parse_ais_multipart("!BSVDM,2,1,4,A,p,0,extra,more*00").unwrap();
    assert_eq!(info.sequential_id, "4");
    assert_eq!(compute_affinity_key(&info), Some("4A".to_string()));
}

#[test]
fn key_concatenates_id_and_channel() {
    let info = AisMultipartInfo {
        total_fragments: 3,
        fragment_number: 1,
        sequential_id: "12".to_string(),
        channel: "B".to_string(),
    };
    assert_eq!(compute_affinity_key(&info), Some("12B".to_string()));
    let info = AisMultipartInfo {
        total_fragments: 3,
        fragment_number: 1,
        sequential_id: String::new(),
        channel: "B".to_string(),
    };
    assert_eq!(compute_affinity_key(&info), None);
}
