use qr_encoder::correction::{data_capacity, error_correction, interleave, split_blocks};
use qr_encoder::error::EncodeError;
use qr_encoder::vecl::ECL;
use qr_encoder::version::Version;

const LEVELS: [ECL; 4] = [ECL::L, ECL::M, ECL::Q, ECL::H];

#[test]
fn data_capacity_of_chosen_symbols() {
    assert_eq!(data_capacity(Version::V1, ECL::L), 19);
    assert_eq!(data_capacity(Version::V1, ECL::M), 16);
    assert_eq!(data_capacity(Version::V1, ECL::Q), 13);
    assert_eq!(data_capacity(Version::V1, ECL::H), 9);
    assert_eq!(data_capacity(Version::V5, ECL::Q), 62);
    assert_eq!(data_capacity(Version::V7, ECL::L), 156);
    assert_eq!(data_capacity(Version::V40, ECL::H), 1276);
    assert_eq!(data_capacity(Version::V40, ECL::L), 2956);
    assert_eq!(data_capacity(Version::V21, ECL::M), 714);
}

#[test]
fn data_capacity_is_what_correction_leaves() {
    for ecl in LEVELS {
        for number in 1..=40usize {
            let version = Version::from_number(number).unwrap();
            let data = data_capacity(version, ecl);
            assert!(data >= 1);
            assert!(data < version.max_bytes());
            let codewords = error_correction(&vec![0; data], version, ecl).unwrap();
            assert_eq!(codewords.len(), version.max_bytes());
        }
    }
    for number in 1..=40usize {
        let version = Version::from_number(number).unwrap();
        assert!(data_capacity(version, ECL::L) > data_capacity(version, ECL::M));
        assert!(data_capacity(version, ECL::M) > data_capacity(version, ECL::Q));
        assert!(data_capacity(version, ECL::Q) > data_capacity(version, ECL::H));
    }
}

#[test]
fn single_block_is_data_then_correction() {
    let data = [32, 91, 11, 120, 209, 114, 220, 77, 67, 64, 236, 17, 236, 17, 236, 17];
    let mut expected = data.to_vec();
    expected.extend([196, 35, 39, 119, 235, 215, 231, 226, 93, 23]);
    assert_eq!(interleave(&data, 1, 10), expected);
    assert_eq!(error_correction(&data, Version::V1, ECL::M), Ok(expected));
}

#[test]
fn interleave_without_correction_codewords() {
    assert_eq!(interleave(&[1, 2, 3, 4, 5, 6], 2, 0), vec![1, 4, 2, 5, 3, 6]);
    assert_eq!(interleave(&[1, 2, 3, 4, 5, 6, 7], 2, 0), vec![1, 4, 2, 5, 3, 6, 7]);
    assert_eq!(interleave(&[1, 2, 3, 4, 5, 6, 7, 8], 3, 0), vec![1, 3, 6, 2, 4, 7, 5, 8]);
    assert_eq!(interleave(&[1, 2, 3], 1, 0), vec![1, 2, 3]);
    assert_eq!(interleave(&[1, 2, 3], 3, 0), vec![1, 2, 3]);
    assert_eq!(interleave(&[1, 2], 3, 0), vec![1, 2]);
    assert_eq!(interleave(&[], 2, 0), Vec::<u8>::new());
}

#[test]
fn interleave_of_nothing_is_zero_correction() {
    assert_eq!(interleave(&[], 2, 3), vec![0; 6]);
}

#[test]
fn error_correction_refuses_a_wrong_length() {
    let data = vec![0u8; 16];
    assert!(error_correction(&data, Version::V1, ECL::M).is_ok());
    for ecl in [ECL::L, ECL::Q, ECL::H] {
        assert_eq!(
            error_correction(&data, Version::V1, ecl),
            Err(EncodeError::InternalConsistency)
        );
    }
    assert_eq!(
        error_correction(&data[..15], Version::V1, ECL::M),
        Err(EncodeError::InternalConsistency)
    );
    assert_eq!(error_correction(&[], Version::V1, ECL::M), Err(EncodeError::InternalConsistency));
}

#[test]
fn interleaved_blocks_of_version_5_at_q() {
    let data: Vec<u8> = vec![
        67, 85, 70, 134, 87, 38, 85, 194, 119, 50, 6, 18, 6, 103, 38, 246, 246, 66, 7, 118,
        134, 242, 7, 38, 86, 22, 198, 199, 146, 6, 182, 230, 247, 119, 50, 7, 118, 134, 87,
        38, 82, 6, 134, 151, 50, 7, 70, 247, 118, 86, 194, 6, 151, 50, 16, 236, 17, 236,
        17, 236, 17, 236,
    ];
    let expected: Vec<u8> = vec![
        67, 246, 182, 70, 85, 246, 230, 247, 70, 66, 247, 118, 134, 7, 119, 86, 87, 118,
        50, 194, 38, 134, 7, 6, 85, 242, 118, 151, 194, 7, 134, 50, 119, 38, 87, 16, 50,
        86, 38, 236, 6, 22, 82, 17, 18, 198, 6, 236, 6, 199, 134, 17, 103, 146, 151, 236,
        38, 6, 50, 17, 7, 236, 213, 87, 148, 235, 199, 204, 116, 159, 11, 96, 177, 5, 45,
        60, 212, 173, 115, 202, 76, 24, 247, 182, 133, 147, 241, 124, 75, 59, 223, 157,
        242, 33, 229, 200, 238, 106, 248, 134, 76, 40, 154, 27, 195, 255, 117, 129, 230,
        172, 154, 209, 189, 82, 111, 17, 10, 2, 86, 163, 108, 131, 161, 163, 240, 32, 111,
        120, 192, 178, 39, 133, 141, 236,
    ];
    assert_eq!(error_correction(&data, Version::V5, ECL::Q), Ok(expected));
}

#[test]
fn interleaved_blocks_of_version_7_at_h() {
    let data: Vec<u8> = vec![
        215, 20, 39, 160, 174, 179, 254, 233, 35, 47, 138, 242, 33, 31, 158, 228, 145, 197,
        177, 11, 236, 181, 86, 59, 252, 30, 111, 147, 66, 126, 203, 200, 254, 41, 85, 229,
        205, 142, 70, 220, 142, 212, 183, 194, 118, 77, 42, 90, 77, 118, 119, 6, 248, 93,
        134, 144, 2, 74, 214, 189, 163, 64, 27, 233, 200, 203,
    ];
    let expected: Vec<u8> = vec![
        215, 31, 111, 220, 248, 20, 158, 147, 142, 93, 39, 228, 66, 212, 134, 160, 145,
        126, 183, 144, 174, 197, 203, 194, 2, 179, 177, 200, 118, 74, 254, 11, 254, 77,
        214, 233, 236, 41, 42, 189, 35, 181, 85, 90, 163, 47, 86, 229, 77, 64, 138, 59,
        205, 118, 27, 242, 252, 142, 119, 233, 33, 30, 70, 6, 200, 203, 83, 156, 86, 234,
        35, 164, 203, 159, 164, 96, 223, 226, 110, 184, 87, 43, 238, 237, 22, 252, 42, 217,
        165, 254, 234, 184, 123, 244, 161, 13, 112, 125, 17, 120, 79, 199, 242, 102, 56,
        139, 21, 156, 8, 11, 102, 217, 66, 154, 247, 191, 169, 50, 71, 100, 166, 77, 104,
        141, 38, 89, 170, 249, 76, 14, 178, 146, 11, 31, 75, 192, 18, 147, 98, 158, 39, 29,
        110, 241, 220, 183, 225, 73, 180, 12, 230, 119, 83, 10, 216, 27, 8, 85, 103, 48,
        186, 28, 218, 34, 95, 177, 131, 149, 49, 63, 221, 150, 75, 191, 76, 31, 53, 93, 3,
        84, 149, 180, 153, 52, 142, 18, 135, 85, 159, 221, 86, 179, 122, 136, 123, 104,
    ];
    assert_eq!(error_correction(&data, Version::V7, ECL::H), Ok(expected));
}

#[test]
fn interleaved_blocks_of_version_14_at_m() {
    let data: Vec<u8> = vec![
        204, 201, 53, 246, 205, 31, 97, 34, 106, 225, 83, 56, 174, 26, 52, 0, 77, 51, 186,
        13, 36, 106, 192, 76, 129, 177, 186, 242, 62, 59, 249, 238, 245, 247, 159, 43, 73,
        52, 175, 135, 245, 82, 11, 105, 185, 75, 13, 152, 46, 133, 187, 85, 182, 114, 168,
        114, 99, 122, 205, 116, 102, 252, 182, 14, 14, 143, 241, 132, 99, 176, 228, 178,
        186, 41, 112, 52, 116, 240, 100, 172, 104, 247, 0, 245, 176, 43, 61, 198, 102, 244,
        91, 222, 170, 44, 202, 237, 205, 43, 81, 87, 65, 14, 77, 238, 74, 242, 179, 79, 67,
        10, 7, 52, 71, 222, 99, 108, 14, 128, 108, 149, 123, 166, 132, 214, 67, 31, 181,
        234, 215, 66, 77, 9, 225, 93, 2, 76, 88, 72, 242, 61, 31, 166, 247, 54, 29, 127,
        97, 141, 21, 50, 231, 14, 32, 226, 166, 102, 141, 231, 244, 126, 132, 103, 229, 70,
        213, 62, 200, 226, 161, 37, 123, 219, 37, 108, 155, 62, 79, 187, 73, 129, 70, 239,
        112, 48, 203, 249, 83, 114, 82, 220, 206, 173, 215, 100, 182, 163, 47, 187, 9, 173,
        234, 225, 9, 196, 169, 151, 32, 57, 117, 53, 43, 135, 139, 20, 92, 138, 66, 216,
        132, 207, 76, 253, 167, 45, 142, 29, 93, 217, 37, 137, 8, 45, 133, 42, 113, 34,
        135, 62, 232, 5, 173, 213, 137, 66, 22, 122, 56, 82, 134, 25, 92, 103, 159, 156,
        105, 148, 228, 91, 138, 177, 9, 128, 18, 7, 9, 97, 243, 125, 228, 54, 221, 253,
        201, 157, 110, 117, 175, 101, 71, 207, 177, 27, 66, 7, 36, 130, 220, 83, 28, 43,
        195, 144, 124, 150, 23, 235, 94, 80, 137, 228, 1, 134, 186, 168, 165, 125, 17, 158,
        111, 182, 93, 0, 171, 195, 42, 243, 142, 102, 127, 2, 46, 135, 45, 73, 204, 21,
        201, 11, 153, 155, 119, 43, 79, 199, 166, 253, 76, 145, 74, 22, 219, 71, 8, 117,
        43, 15, 21, 68, 184, 53, 192, 231, 25, 9, 125, 250, 135, 1, 233, 35, 47, 33, 242,
        129, 38,
    ];
    let expected: Vec<u8> = vec![
        204, 245, 104, 123, 132, 225, 137, 7, 204, 201, 82, 247, 166, 103, 9, 66, 36, 21,
        53, 11, 0, 132, 229, 196, 22, 130, 201, 246, 105, 245, 214, 70, 169, 122, 220, 11,
        205, 185, 176, 67, 213, 151, 56, 83, 153, 31, 75, 43, 31, 62, 32, 82, 28, 155, 97,
        13, 61, 181, 200, 57, 134, 43, 119, 34, 152, 198, 234, 226, 117, 25, 195, 43, 106,
        46, 102, 215, 161, 53, 92, 144, 79, 225, 133, 244, 66, 37, 43, 103, 124, 199, 83,
        187, 91, 77, 123, 135, 159, 150, 166, 56, 85, 222, 9, 219, 139, 156, 23, 253, 174,
        182, 170, 225, 37, 20, 105, 235, 76, 26, 114, 44, 93, 108, 92, 148, 94, 145, 52,
        168, 202, 2, 155, 138, 228, 80, 74, 0, 114, 237, 76, 62, 66, 91, 137, 22, 77, 99,
        205, 88, 79, 216, 138, 228, 219, 51, 122, 43, 72, 187, 132, 177, 1, 71, 186, 205,
        81, 242, 73, 207, 9, 134, 8, 13, 116, 87, 61, 129, 76, 128, 186, 117, 36, 102, 65,
        31, 70, 253, 18, 168, 43, 106, 252, 14, 166, 239, 167, 7, 165, 15, 192, 182, 77,
        247, 112, 45, 9, 125, 21, 76, 14, 238, 54, 48, 142, 97, 17, 68, 129, 14, 74, 29,
        203, 29, 243, 158, 184, 177, 143, 242, 127, 249, 93, 125, 111, 53, 186, 241, 179,
        97, 83, 217, 228, 182, 192, 242, 132, 79, 141, 114, 37, 54, 93, 231, 62, 99, 67,
        21, 82, 137, 221, 0, 25, 59, 176, 10, 50, 220, 8, 253, 171, 9, 249, 228, 7, 231,
        206, 45, 201, 195, 125, 238, 178, 52, 14, 173, 133, 157, 42, 250, 245, 186, 71, 32,
        215, 42, 110, 243, 135, 247, 41, 222, 226, 100, 113, 117, 142, 1, 159, 112, 99,
        166, 182, 34, 175, 102, 233, 43, 52, 108, 102, 163, 135, 101, 127, 35, 73, 116, 14,
        141, 47, 62, 71, 2, 47, 52, 240, 128, 231, 187, 232, 207, 46, 33, 175, 100, 108,
        244, 9, 5, 177, 135, 242, 135, 172, 149, 126, 173, 173, 27, 45, 129, 234, 213, 66,
        73, 38, 235, 68, 253, 176, 128, 156, 32, 199, 137, 73, 22, 181, 205, 185, 138, 140,
        108, 244, 180, 181, 167, 47, 115, 76, 111, 252, 172, 223, 23, 243, 13, 62, 183, 48,
        68, 169, 251, 120, 251, 22, 62, 115, 160, 99, 194, 217, 246, 178, 52, 141, 204, 55,
        176, 238, 39, 141, 215, 60, 223, 88, 141, 40, 119, 87, 107, 33, 123, 141, 169, 203,
        126, 85, 68, 82, 244, 114, 185, 137, 34, 116, 94, 104, 58, 197, 197, 113, 93, 79,
        163, 219, 10, 208, 125, 49, 108, 16, 50, 189, 196, 106, 57, 227, 218, 207, 74, 234,
        75, 183, 80, 212, 233, 28, 199, 173, 139, 235, 98, 67, 101, 68, 92, 52, 235, 136,
        155, 229, 251, 145, 45, 8, 18, 77, 63, 160, 68, 14, 114, 224, 63, 175, 15, 162, 21,
        212, 126, 25, 231, 197, 174, 8, 56, 179, 9, 133, 21, 255, 68, 51, 177, 192, 231,
        42, 111, 166, 202, 100, 208, 68, 70, 3, 137, 3, 73, 54, 144, 50, 30, 163, 98, 85,
        31, 84, 160, 157, 125, 214, 195, 69, 48, 79, 139, 196, 214, 67, 56, 58, 105, 245,
        143, 220, 15, 43, 165, 139, 59, 207, 146, 204, 58, 140, 174, 74, 165, 168, 52, 150,
    ];
    assert_eq!(error_correction(&data, Version::V14, ECL::M), Ok(expected));
}

#[test]
fn blocks_of_version_5_at_q() {
    let data: Vec<u8> = vec![
        67, 85, 70, 134, 87, 38, 85, 194, 119, 50, 6, 18, 6, 103, 38, 246, 246, 66, 7, 118,
        134, 242, 7, 38, 86, 22, 198, 199, 146, 6, 182, 230, 247, 119, 50, 7, 118, 134, 87,
        38, 82, 6, 134, 151, 50, 7, 70, 247, 118, 86, 194, 6, 151, 50, 16, 236, 17, 236,
        17, 236, 17, 236,
    ];
    let parts = split_blocks(&data, 4, 18);
    assert_eq!(parts.len(), 4);
    let lengths: Vec<usize> = parts.iter().map(|part| part.data.len()).collect();
    assert_eq!(lengths, vec![15, 15, 16, 16]);
    let joined: Vec<u8> = parts.iter().flat_map(|part| part.data.iter().copied()).collect();
    assert_eq!(joined, data);
    assert_eq!(parts[0].correction, vec![213, 199, 11, 45, 115, 247, 241, 223, 229, 248, 154, 117, 154, 111, 86, 161, 111, 39]);
    assert_eq!(parts[1].correction, vec![87, 204, 96, 60, 202, 182, 124, 157, 200, 134, 27, 129, 209, 17, 163, 163, 120, 133]);
    assert_eq!(parts[2].correction, vec![148, 116, 177, 212, 76, 133, 75, 242, 238, 76, 195, 230, 189, 10, 108, 240, 192, 141]);
    assert_eq!(parts[3].correction, vec![235, 159, 5, 173, 24, 147, 59, 33, 106, 40, 255, 172, 82, 2, 131, 32, 178, 236]);
}

#[test]
fn blocks_of_uneven_data() {
    let parts = split_blocks(&[1, 2, 3, 4, 5, 6, 7, 8], 3, 0);
    let data: Vec<Vec<u8>> = parts.iter().map(|part| part.data.clone()).collect();
    assert_eq!(data, vec![vec![1, 2], vec![3, 4, 5], vec![6, 7, 8]]);
    assert!(parts.iter().all(|part| part.correction.is_empty()));
    let parts = split_blocks(&[9], 2, 2);
    assert_eq!(parts[0].data, Vec::<u8>::new());
    assert_eq!(parts[0].correction, vec![0, 0]);
    assert_eq!(parts[1].data, vec![9]);
    assert_eq!(parts[1].correction.len(), 2);
}
