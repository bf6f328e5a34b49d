use mpc_carrier::messages::{Message, NodeRequest, NodeResponse};
use mpc_carrier::node::MAX_LEN;
use mpc_carrier::protobuf_tcp::{new, Error};

fn framed_request(request: &NodeRequest, max_len: usize) -> Vec<u8> {
    let (_, mut writer) = new(max_len);
    writer.write(request.clone()).unwrap();
    writer.flush()
}

#[test]
fn response_frame_bytes() {
    let (_, mut writer) = new(8);
    writer.write(NodeResponse { request_id: vec![7] }).unwrap();
    assert_eq!(writer.flush(), vec![0, 0, 0, 3, 10, 1, 7]);
}

#[test]
fn request_frame_bytes() {
    let request = NodeRequest { request_id: vec![0], distance_list: vec![1, 2, 3] };
    assert_eq!(framed_request(&request, 64), vec![0, 0, 0, 8, 10, 1, 0, 18, 3, 1, 2, 3]);
}

#[test]
fn empty_message_is_an_empty_payload() {
    let (mut reader, mut writer) = new(0);
    writer.write(NodeResponse { request_id: vec![] }).unwrap();
    let bytes = writer.flush();
    assert_eq!(bytes, vec![0, 0, 0, 0]);
    reader.feed(&bytes);
    let back: NodeResponse = reader.read().unwrap().unwrap();
    assert_eq!(back, NodeResponse { request_id: vec![] });
}

#[test]
fn frame_is_four_bytes_longer_than_the_encoding() {
    let request = NodeRequest { request_id: vec![9; 300], distance_list: vec![4; 70000] };
    let bytes = framed_request(&request, MAX_LEN);
    let encoded_len = request.encoded_len().unwrap();
    assert_eq!(encoded_len, 1 + 2 + 300 + 1 + 3 + 70000);
    assert_eq!(bytes.len(), 4 + encoded_len);
    assert_eq!(&bytes[..4], &(encoded_len as u32).to_be_bytes());
    assert!(encoded_len <= MAX_LEN);
}

#[test]
fn request_round_trip() {
    let (mut reader, mut writer) = new(64);
    let request = NodeRequest { request_id: vec![0], distance_list: vec![1, 2, 3] };
    writer.write(request.clone()).unwrap();
    let bytes = writer.flush();
    assert_eq!(bytes.len(), 4 + request.encoded_len().unwrap());
    reader.feed(&bytes);
    let back: NodeRequest = reader.read().unwrap().unwrap();
    assert_eq!(back, request);
    assert!(matches!(reader.read::<NodeRequest>(), Ok(None)));
}

#[test]
fn long_fields_round_trip() {
    let (mut reader, mut writer) = new(MAX_LEN);
    let request = NodeRequest { request_id: vec![200; 129], distance_list: vec![255; 20000] };
    writer.write(request.clone()).unwrap();
    reader.feed(&writer.flush());
    let back: NodeRequest = reader.read().unwrap().unwrap();
    assert_eq!(back, request);
}

#[test]
fn frames_are_read_in_the_order_written() {
    let (mut reader, mut writer) = new(64);
    for id in 0..5u8 {
        writer.write(NodeResponse { request_id: vec![id, id] }).unwrap();
    }
    reader.feed(&writer.flush());
    for id in 0..5u8 {
        let back: NodeResponse = reader.read().unwrap().unwrap();
        assert_eq!(back.request_id, vec![id, id]);
    }
    assert!(matches!(reader.read::<NodeResponse>(), Ok(None)));
    assert!(reader.finish().is_ok());
}

#[test]
fn a_frame_that_comes_in_pieces_is_read_when_it_is_whole() {
    let request = NodeRequest { request_id: vec![1, 2], distance_list: vec![3, 4, 5] };
    let bytes = framed_request(&request, 64);
    let (mut reader, _) = new(64);
    for byte in &bytes[..bytes.len() - 1] {
        reader.feed(&[*byte]);
        assert!(matches!(reader.read::<NodeRequest>(), Ok(None)));
        assert!(matches!(reader.finish(), Err(Error::Io(_))));
    }
    reader.feed(&bytes[bytes.len() - 1..]);
    let back: NodeRequest = reader.read().unwrap().unwrap();
    assert_eq!(back, request);
}

#[test]
fn length_equal_to_the_limit_is_written() {
    let response = NodeResponse { request_id: vec![5; 6] };
    assert_eq!(response.encoded_len(), Some(8));
    let (mut reader, mut writer) = new(8);
    assert!(writer.write(response.clone()).is_ok());
    reader.feed(&writer.flush());
    let back: NodeResponse = reader.read().unwrap().unwrap();
    assert_eq!(back, response);
}

#[test]
fn length_above_the_limit_is_refused_and_nothing_is_written() {
    let response = NodeResponse { request_id: vec![5; 7] };
    assert_eq!(response.encoded_len(), Some(9));
    let (_, mut writer) = new(8);
    assert!(matches!(writer.write(response), Err(Error::InvalidLen)));
    assert!(writer.flush().is_empty());
}

#[test]
fn writer_goes_on_after_a_refusal() {
    let (_, mut writer) = new(4);
    let r = writer.write(NodeResponse { request_id: vec![1, 2, 3] });
    assert!(matches!(r, Err(Error::InvalidLen)));
    writer.write(NodeResponse { request_id: vec![1, 2] }).unwrap();
    assert_eq!(writer.flush(), vec![0, 0, 0, 4, 10, 2, 1, 2]);
}

#[test]
fn eight_mebibytes_are_written_and_one_byte_more_is_not() {
    let fitting = NodeRequest { request_id: vec![0], distance_list: vec![7; 8388600] };
    assert_eq!(fitting.encoded_len(), Some(MAX_LEN));
    let (_, mut writer) = new(MAX_LEN);
    assert!(writer.write(fitting).is_ok());
    let bytes = writer.flush();
    assert_eq!(bytes.len(), 4 + MAX_LEN);
    assert_eq!(&bytes[..4], &[0, 128, 0, 0]);
    let oversize = NodeRequest { request_id: vec![0], distance_list: vec![7; 8388601] };
    assert_eq!(oversize.encoded_len(), Some(MAX_LEN + 1));
    assert!(matches!(writer.write(oversize), Err(Error::InvalidLen)));
    assert!(writer.flush().is_empty());
    writer.write(NodeRequest { request_id: vec![1], distance_list: vec![] }).unwrap();
    assert_eq!(writer.flush(), vec![0, 0, 0, 3, 10, 1, 1]);
}

#[test]
fn announced_length_above_the_limit_is_refused_at_the_header() {
    let (mut reader, _) = new(8);
    reader.feed(&[0, 0, 0, 9]);
    assert!(matches!(reader.read::<NodeResponse>(), Err(Error::InvalidLen)));
}

#[test]
fn announced_length_is_read_most_significant_byte_first() {
    let (mut reader, _) = new(255);
    reader.feed(&[0, 0, 1, 0]);
    assert!(matches!(reader.read::<NodeResponse>(), Err(Error::InvalidLen)));
    let (mut reader, _) = new(256);
    reader.feed(&[0, 0, 1, 0]);
    assert!(matches!(reader.read::<NodeResponse>(), Ok(None)));
}

#[test]
fn payload_that_is_no_message_is_a_decode_error() {
    let (mut reader, _) = new(64);
    reader.feed(&[0, 0, 0, 2, 10, 5, 0, 0, 0, 3, 10]);
    assert!(matches!(reader.read::<NodeResponse>(), Err(Error::Decode(_))));
    assert!(matches!(reader.read::<NodeResponse>(), Ok(None)));
    reader.feed(&[1, 3]);
    let back: NodeResponse = reader.read().unwrap().unwrap();
    assert_eq!(back.request_id, vec![3]);
}

#[test]
fn stream_may_end_between_frames_only() {
    let (mut reader, _) = new(64);
    assert!(reader.finish().is_ok());
    reader.feed(&[0, 0]);
    assert!(matches!(reader.finish(), Err(Error::Io(_))));
}
