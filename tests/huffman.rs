use rtools::codec::{compress, decompress};
use rtools::decoder::HuffmanDecoder as StreamDecoder;
use rtools::encoder::HuffmanEncoder;
use rtools::header::Header;
use rtools::huffman::{count_frequencies, create_huffman_tree, HuffmanDecodeResult, HuffmanDecoder};
use rtools::tree::HuffmanTree;
use rtools::tree::HuffmanTree::{Leaf, Node};

#[test]
fn decoder_test_decode() {
    let buf = "abacba".as_bytes();
    let header = Header {
        counts: count_frequencies(buf),
        filesize: 3,
    };
    let decoder = StreamDecoder::new(&header);

    let input: [u8; 1] = [0b00001110];
    let output = decoder.decode(&input);

    assert_eq!("abc", std::str::from_utf8(&output).unwrap());
}

#[test]
fn test_encode_header() {
    let buf = "abacba".as_bytes();
    let header = Header {
        counts: count_frequencies(buf),
        filesize: 10,
    };

    let bytes = header.write();

    assert_eq!(
        bytes,
        vec![
            0x0A, 0x00, 0x00, 0x00, 0x00, 0x00, 0x00, 0x00, // File Size
            0x03, // Number of frequencies
            b'a', 0x03, 0x00, 0x00, 0x00, b'b', 0x02, 0x00, 0x00, 0x00, b'c', 0x01, 0x00, 0x00,
            0x00
        ]
    )
}

#[test]
fn test_decode_header() {
    let encoded = vec![
        0x75, 0x0A, 0x00, 0x00, 0x00, 0x00, 0x00, 0x00, // File size
        0x03, // Number of frequencies
        b'a', 0x03, 0x00, 0x00, 0x00, b'b', 0x02, 0x00, 0x00, 0x00, b'c', 0x01, 0x00, 0x00,
        0x00,
    ];

    let counts = Header::read(&encoded).unwrap();
    assert_eq!(
        counts,
        Header {
            counts: vec![(b'a', 3), (b'b', 2), (b'c', 1)],
            filesize: 2677
        }
    );
}

#[test]
fn decode_header_too_short() {
    assert_eq!(Header::read(&[0x01, 0x00, 0x00]), None);
    let missing_entry = vec![0x01, 0, 0, 0, 0, 0, 0, 0, 0x01, b'a', 0x01];
    assert_eq!(Header::read(&missing_entry), None);
}

#[test]
fn header_round_trip_and_size() {
    let header = Header {
        counts: vec![(b'x', 70000), (b'y', 1)],
        filesize: 70001,
    };
    let bytes = header.write();
    assert_eq!(bytes.len(), header.size());
    assert_eq!(header.size(), 19);
    assert_eq!(Header::read(&bytes).unwrap(), header);
}

#[test]
fn test_count_frequencies() {
    assert_eq!(count_frequencies("aa".as_bytes()), vec![(b'a', 2)]);
    assert_eq!(
        count_frequencies("abcdbca".as_bytes()),
        vec![(b'a', 2), (b'b', 2), (b'c', 2), (b'd', 1)]
    );
    assert_eq!(
        count_frequencies("hello, I'm testing".as_bytes()),
        vec![
            (b'h', 1),
            (b'e', 2),
            (b'l', 2),
            (b'o', 1),
            (b',', 1),
            (b' ', 2),
            (b'I', 1),
            (b'\'', 1),
            (b'm', 1),
            (b't', 2),
            (b's', 1),
            (b'i', 1),
            (b'n', 1),
            (b'g', 1),
        ],
    );
}

#[test]
fn count_frequencies_of_nothing() {
    assert_eq!(count_frequencies(&[]), vec![]);
}

#[test]
fn lib_test_create_huffman_tree() {
    let counts = count_frequencies("abacba".as_bytes());
    let tree = create_huffman_tree(counts);
    assert_eq!(
        tree,
        Box::new(Node(
            6,
            Box::new(Leaf(3, b'a')),
            Box::new(Node(3, Box::new(Leaf(1, b'c')), Box::new(Leaf(2, b'b'))))
        ))
    );
}

#[test]
fn lib_test_encode() {
    let counts = count_frequencies("abacba".as_bytes());
    let tree = create_huffman_tree(counts);

    assert_eq!(Some(vec![0]), tree.encode(b'a'));
    assert_eq!(Some(vec![1, 0]), tree.encode(b'c'));
    assert_eq!(Some(vec![1, 1]), tree.encode(b'b'));
}

#[test]
fn encode_missing_symbol() {
    let tree = create_huffman_tree(count_frequencies("abacba".as_bytes()));
    assert_eq!(None, tree.encode(b'z'));
    assert_eq!(tree.value(), 6);
}

#[test]
fn lib_test_decode() {
    let counts = count_frequencies("abacba".as_bytes());
    let tree = create_huffman_tree(counts);
    let mut decoder = HuffmanDecoder::new(*tree);

    assert_eq!(HuffmanDecodeResult::Decoded(b'a'), decoder.step(0));

    assert_eq!(HuffmanDecodeResult::Decoding, decoder.step(1));
    assert_eq!(HuffmanDecodeResult::Decoded(b'b'), decoder.step(1));

    assert_eq!(HuffmanDecodeResult::Decoding, decoder.step(1));
    assert_eq!(HuffmanDecodeResult::Decoded(b'c'), decoder.step(0));
}

#[test]
fn single_leaf_tree_decodes_every_bit() {
    let mut decoder = HuffmanDecoder::new(Leaf(4, b'q'));
    assert_eq!(HuffmanDecodeResult::Decoded(b'q'), decoder.step(0));
    assert_eq!(HuffmanDecodeResult::Decoded(b'q'), decoder.step(1));
}

#[test]
fn tree_test_create_huffman_tree() {
    let counts = count_frequencies("abacba".as_bytes());
    let tree = HuffmanTree::create(&counts);
    assert_eq!(
        tree,
        HuffmanTree::Node(
            6,
            Box::new(HuffmanTree::Leaf(3, b'a')),
            Box::new(HuffmanTree::Node(
                3,
                Box::new(HuffmanTree::Leaf(1, b'c')),
                Box::new(HuffmanTree::Leaf(2, b'b'))
            ))
        )
    );
}

#[test]
fn tree_test_encode() {
    let counts = count_frequencies("abacba".as_bytes());
    let tree = HuffmanTree::create(&counts);

    assert_eq!(Some(vec![0]), tree.encode(b'a'));
    assert_eq!(Some(vec![1, 0]), tree.encode(b'c'));
    assert_eq!(Some(vec![1, 1]), tree.encode(b'b'));
}

#[test]
fn encoder_packs_codes() {
    let header = Header {
        counts: count_frequencies("abacba".as_bytes()),
        filesize: 3,
    };
    let encoder = HuffmanEncoder::new(&header);
    assert_eq!(encoder.encode("abc".as_bytes()), Some(vec![0b00001110]));
    assert_eq!(encoder.encode("abz".as_bytes()), None);
}

#[test]
fn compress_then_decompress() {
    let text = "hello, I'm testing huffman coding".as_bytes();
    let packed = compress(text);
    assert!(packed.len() < 9 + 5 * 20 + text.len());
    assert_eq!(decompress(&packed).unwrap(), text.to_vec());
}

#[test]
fn compress_known_bytes() {
    let packed = compress("abacba".as_bytes());
    let mut expected = vec![6, 0, 0, 0, 0, 0, 0, 0, 3];
    expected.extend_from_slice(&[b'a', 3, 0, 0, 0, b'b', 2, 0, 0, 0, b'c', 1, 0, 0, 0]);
    // a=0 b=11 a=0 c=10 b=11 a=0, least significant bit first
    expected.push(0b1101_0110);
    expected.push(0b0000_0000);
    assert_eq!(packed, expected);
}

#[test]
fn compress_empty_and_decompress_garbage() {
    let packed = compress(&[]);
    assert_eq!(packed, vec![0; 9]);
    assert_eq!(decompress(&packed), Some(vec![]));
    assert_eq!(decompress(&[1, 2, 3]), None);
    let overflowing = vec![
        1, 0, 0, 0, 0, 0, 0, 0, 2, b'a', 0xFF, 0xFF, 0xFF, 0xFF, b'b', 0xFF, 0xFF, 0xFF, 0xFF,
    ];
    assert!(decompress(&overflowing).is_some());
}

#[test]
fn single_symbol_input_has_empty_codes() {
    let packed = compress("aaaa".as_bytes());
    assert_eq!(packed.len(), 9 + 5);
    assert_eq!(decompress(&packed), Some(vec![]));
}

#[test]
fn round_trip_of_all_but_one_byte_value() {
    let text: Vec<u8> = (0u8..=254).chain(0u8..=10).collect();
    let packed = compress(&text);
    assert_eq!(decompress(&packed).unwrap(), text);
}
