use picosystem::codec::{compress, ctrl_word, decompress, decompressed_size};
use rand::RngExt;

#[test]
fn test_decompressed_size() {
    assert_eq!(decompressed_size(&vec![]), 0);
    assert_eq!(decompressed_size(&vec![1]), 1);
}

#[test]
fn test_decompress_skip() {
    let input = vec![16, ctrl_word(0, 16)];
    let mut output = vec![0u16; 16];
    decompress(&input, &mut output);
    assert_eq!(output, vec![0u16; 16]);
}

#[test]
fn test_decompress_data_without_run() {
    let input = vec![2, ctrl_word(2, 0), 0xaa, 0xbb];
    let mut output = vec![0u16; 2];
    decompress(&input, &mut output);
    assert_eq!(output, vec![0xaa, 0xbb]);
}

#[test]
fn test_decompress_data_with_run() {
    let input = vec![6, ctrl_word(2, 3), 0xaa, 0xbb];
    let mut output = vec![0u16; 5];
    decompress(&input, &mut output);
    assert_eq!(output, vec![0xaa, 0xbb, 0xbb, 0xbb, 0xbb]);
}

#[test]
fn test_compress_empty() {
    let input = vec![];
    let mut output = vec![0u16; 100];
    let output_length = compress(&input, &mut output);
    assert_eq!(&output[0..output_length], [0]);
}

#[test]
fn test_compress_just_runs() {
    let input = vec![0xaa, 0xaa, 0xaa, 0xaa, 0xbb, 0xbb, 0xbb, 0xbb];
    let mut output = vec![0u16; 100];
    let output_length = compress(&input, &mut output);
    assert_eq!(
        &output[0..output_length],
        [8, ctrl_word(1, 3), 0xaa, ctrl_word(1, 3), 0xbb]
    );
}

#[test]
fn test_compress_data_without_run() {
    let input = vec![0xaa, 0xbb, 0xcc, 0xdd];
    let mut output = vec![0u16; 100];
    let output_length = compress(&input, &mut output);
    assert_eq!(
        &output[0..output_length],
        [4, ctrl_word(4, 0), 0xaa, 0xbb, 0xcc, 0xdd]
    );
}

#[test]
fn test_max_run() {
    let input = vec![0xaa; 256];
    let mut output = vec![0u16; 100];
    let output_length = compress(&input, &mut output);
    assert_eq!(&output[0..output_length], [256, ctrl_word(1, 255), 0xaa]);
}

#[test]
fn test_long_run() {
    let input = vec![0xaa; 257];
    let mut output = vec![0u16; 100];
    let output_length = compress(&input, &mut output);
    assert_eq!(
        &output[0..output_length],
        [257, ctrl_word(1, 255), 0xaa, 1, 0xaa]
    );
}

#[test]
fn test_long_data() {
    let mut input = vec![0u16; 257];
    for i in 0..257 {
        input[i] = i as u16;
    }
    let mut output = vec![0u16; 1000];
    let output_length = compress(&input, &mut output);
    let mut expected = vec![257, ctrl_word(255, 0)];
    for i in 0..255u16 {
        expected.push(i);
    }
    expected.push(ctrl_word(2, 0));
    expected.push(255);
    expected.push(256);
    assert_eq!(&output[0..output_length], &expected[..]);
}

#[test]
fn test_random() {
    let mut total_compressed_size = 0;
    const M: usize = 100;
    for _ in 0..M {
        let mut rng = rand::rng();
        const N: usize = 16384;
        let mut input = vec![0u16; N];
        let mut compressed = vec![0u16; N * 2 + 1];
        let mut output = vec![0u16; N];
        for i in 0..N {
            if i == 0 || rng.random::<f32>() < 0.5 {
                input[i] = 100 + (rng.random::<u16>() % 10);
            } else {
                input[i] = input[i - 1];
            }
        }
        let output_length = compress(&input, &mut compressed);
        let compressed_prefix = compressed[0..output_length].to_vec();
        decompress(&compressed_prefix, &mut output);
        assert_eq!(input, output);
        total_compressed_size += output_length;
    }
    println!("average compressed size: {}", total_compressed_size / M);
}

#[test]
fn test_compressed_size_bound() {
    let mut rng = rand::rng();
    for len in [0usize, 1, 2, 3, 31, 32, 255, 256, 257, 1024] {
        let mut input = vec![0u16; len];
        for i in 0..len {
            input[i] = rng.random::<u16>() % 4;
        }
        let mut output = vec![0u16; 2 * len + 1];
        let output_length = compress(&input, &mut output);
        assert!(output_length <= 2 * len + 1);
    }
}

#[test]
fn test_roundtrip_boundaries() {
    for len in [0usize, 1, 2, 253, 254, 255, 256, 257, 511, 512] {
        // Alternating short runs hit the fold-versus-flush boundary cases.
        let mut input = vec![0u16; len];
        for i in 0..len {
            input[i] = ((i / 3) % 7) as u16;
        }
        let mut compressed = vec![0u16; 2 * len + 1];
        let n = compress(&input, &mut compressed);
        let compressed_prefix = compressed[0..n].to_vec();
        let mut output = vec![0u16; len];
        decompress(&compressed_prefix, &mut output);
        assert_eq!(input, output);
    }
}

#[test]
fn test_ctrl_word_packing() {
    assert_eq!(ctrl_word(0x34, 0x12), 0x1234);
    assert_eq!(ctrl_word(255, 255), 0xffff);
    assert_eq!(ctrl_word(1, 0), 1);
}

#[test]
fn test_roundtrip_fold_boundary() {
    // A literal run of 254 followed by a short repeat: the fold would
    // push the literal run past 255, so a record must be flushed instead.
    let mut input: Vec<u16> = (0..253).collect();
    input.push(999);
    input.push(999);
    input.push(999);
    input.push(7);
    let mut compressed = vec![0u16; 2 * input.len() + 1];
    let n = compress(&input, &mut compressed);
    assert!(n <= 2 * input.len() + 1);
    let compressed_prefix = compressed[0..n].to_vec();
    let mut output = vec![0u16; input.len()];
    decompress(&compressed_prefix, &mut output);
    assert_eq!(input, output);
}
