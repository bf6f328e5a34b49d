use mpc_carrier::messages::{Message, NodeRequest, NodeResponse};

#[test]
fn request_encoding() {
    let request = NodeRequest { request_id: vec![0], distance_list: vec![1, 2, 3] };
    let mut buf = vec![9];
    request.encode_raw(&mut buf);
    assert_eq!(buf, vec![9, 10, 1, 0, 18, 3, 1, 2, 3]);
    assert_eq!(request.encoded_len(), Some(8));
}

#[test]
fn empty_fields_are_left_out() {
    let request = NodeRequest { request_id: vec![], distance_list: vec![4] };
    let mut buf = Vec::new();
    request.encode_raw(&mut buf);
    assert_eq!(buf, vec![18, 1, 4]);
    assert_eq!(request.encoded_len(), Some(3));
    assert_eq!(NodeResponse { request_id: vec![] }.encoded_len(), Some(0));
}

#[test]
fn length_of_128_takes_two_bytes() {
    let response = NodeResponse { request_id: vec![1; 128] };
    let mut buf = Vec::new();
    response.encode_raw(&mut buf);
    assert_eq!(&buf[..3], &[10, 128, 1]);
    assert_eq!(buf.len(), 131);
    assert_eq!(response.encoded_len(), Some(131));
    assert_eq!(NodeResponse::decode(&buf).unwrap(), response);
}

#[test]
fn length_of_127_takes_one_byte() {
    let response = NodeResponse { request_id: vec![1; 127] };
    let mut buf = Vec::new();
    response.encode_raw(&mut buf);
    assert_eq!(&buf[..2], &[10, 127]);
    assert_eq!(response.encoded_len(), Some(129));
}

#[test]
fn decoding_gives_back_what_was_encoded() {
    for id_len in [0usize, 1, 5, 127, 128, 300] {
        for list_len in [0usize, 1, 16383, 16384] {
            let request = NodeRequest {
                request_id: vec![3; id_len],
                distance_list: vec![250; list_len],
            };
            let mut buf = Vec::new();
            request.encode_raw(&mut buf);
            assert_eq!(Some(buf.len()), request.encoded_len());
            assert_eq!(NodeRequest::decode(&buf).unwrap(), request);
        }
    }
}

#[test]
fn empty_payload_is_the_empty_message() {
    assert_eq!(
        NodeRequest::decode(&[]).unwrap(),
        NodeRequest { request_id: vec![], distance_list: vec![] }
    );
    assert_eq!(NodeRequest::default(), NodeRequest { request_id: vec![], distance_list: vec![] });
    assert_eq!(NodeResponse::default(), NodeResponse { request_id: vec![] });
}

#[test]
fn fields_are_taken_in_any_order() {
    let request = NodeRequest::decode(&[18, 2, 8, 9, 10, 1, 7]).unwrap();
    assert_eq!(request, NodeRequest { request_id: vec![7], distance_list: vec![8, 9] });
}

#[test]
fn a_field_that_comes_again_replaces_the_earlier_value() {
    let response = NodeResponse::decode(&[10, 1, 7, 10, 2, 8, 9]).unwrap();
    assert_eq!(response.request_id, vec![8, 9]);
}

#[test]
fn unknown_fields_are_passed_over() {
    // Field 3 as a varint, field 4 as four bytes, field 5 as eight bytes,
    // field 6 as a length-delimited value, then the request id.
    let payload = [
        24, 150, 1, 37, 1, 2, 3, 4, 41, 1, 2, 3, 4, 5, 6, 7, 8, 50, 2, 0, 0, 10, 1, 9,
    ];
    assert_eq!(NodeResponse::decode(&payload).unwrap().request_id, vec![9]);
    // The distance list is a field that the response does not know.
    assert_eq!(NodeResponse::decode(&[18, 1, 4, 10, 1, 3]).unwrap().request_id, vec![3]);
}

#[test]
fn a_group_is_passed_over_up_to_its_end() {
    // Field 3 opens a group that holds field 1 as a varint, and closes it.
    let payload = [27, 8, 5, 28, 10, 1, 6];
    assert_eq!(NodeResponse::decode(&payload).unwrap().request_id, vec![6]);
    // A group that is never closed.
    assert!(NodeResponse::decode(&[27, 8, 5]).is_err());
    // The end of a group that was never opened.
    assert!(NodeResponse::decode(&[28]).is_err());
}

#[test]
fn a_value_cut_short_is_refused() {
    assert!(NodeResponse::decode(&[10, 2, 7]).is_err());
    assert!(NodeResponse::decode(&[10]).is_err());
    assert!(NodeRequest::decode(&[10, 1, 7, 18, 3, 1, 2]).is_err());
    assert!(NodeResponse::decode(&[24]).is_err());
    assert!(NodeResponse::decode(&[37, 1, 2, 3]).is_err());
}

#[test]
fn a_request_id_of_another_wire_type_is_refused() {
    // Field 1 as a varint.
    assert!(NodeResponse::decode(&[8, 7]).is_err());
    assert!(NodeRequest::decode(&[16, 7]).is_err());
}

#[test]
fn a_key_that_is_none_is_refused() {
    // Field number zero.
    assert!(NodeResponse::decode(&[2, 0]).is_err());
    // Wire types six and seven.
    assert!(NodeResponse::decode(&[14, 0]).is_err());
    assert!(NodeResponse::decode(&[15, 0]).is_err());
    // A key of more than 32 bits.
    assert!(NodeResponse::decode(&[138, 128, 128, 128, 16, 0]).is_err());
    // A varint without an end.
    assert!(NodeResponse::decode(&[128, 128, 128, 128, 128, 128, 128, 128, 128, 128, 1]).is_err());
}

#[test]
fn a_key_written_with_more_bytes_than_needed_is_read() {
    // Field 1, length-delimited, as a two-byte varint.
    assert_eq!(NodeResponse::decode(&[138, 0, 1, 5]).unwrap().request_id, vec![5]);
    // A length as a two-byte varint.
    assert_eq!(NodeResponse::decode(&[10, 129, 0, 5]).unwrap().request_id, vec![5]);
}
