use utdnsmasq::util::{get_long, get_short, put_long, put_short, rand16};

#[test]
fn test_rand16_distribution() {
    let n_samples = 1000;
    let values: Vec<u16> = (0..n_samples).map(|_| rand16().unwrap()).collect();

    // 2. 统计唯一值的数量
    let unique_count = values
        .iter()
        .collect::<std::collections::HashSet<_>>()
        .len();
    let uniqueness_ratio = unique_count as f64 / n_samples as f64;

    // 期望大多数值是唯一的
    assert!(
        uniqueness_ratio > 0.95,
        "Uniqueness ratio too low: {}/{} = {}",
        unique_count,
        n_samples,
        uniqueness_ratio
    );

    // 3. 验证值不全是0或全是最大值
    let all_zeros = values.iter().all(|&x| x == 0);
    let all_max = values.iter().all(|&x| x == 0xFFFF);
    assert!(!all_zeros && !all_max, "All values are the same");

    // 4. 验证平均分布（粗略检查）
    let mean = values.iter().map(|&x| x as f64).sum::<f64>() / n_samples as f64;
    // 均匀分布的期望均值是 32767.5
    let expected_mean = 32767.5;
    let deviation = (mean - expected_mean).abs() / expected_mean;

    assert!(
        deviation < 0.1, // 允许10%的偏差
        "Mean deviation too large: {} (expected ~{})",
        mean,
        expected_mean
    );
}

#[test]
fn test_get_short_basic() {
    let data = [0x12, 0x34];
    let mut slice = &data[..];
    let result = get_short(&mut slice);
    assert_eq!(result, 0x1234);
    assert_eq!(slice.len(), 0);
}

#[test]
fn test_get_short_multiple_reads() {
    let data = [0x12, 0x34, 0x56, 0x78, 0x9A, 0xBC];
    let mut slice = &data[..];

    let first = get_short(&mut slice);
    assert_eq!(first, 0x1234);
    assert_eq!(slice.len(), 4);

    let second = get_short(&mut slice);
    assert_eq!(second, 0x5678);
    assert_eq!(slice.len(), 2);

    let third = get_short(&mut slice);
    assert_eq!(third, 0x9ABC);
    assert_eq!(slice.len(), 0);
}

#[test]
fn test_get_short_endianness() {
    // 测试大端序字节序
    let data = [0x00, 0x01]; // 应该等于 1
    let mut slice = &data[..];
    let result = get_short(&mut slice);
    assert_eq!(result, 1);

    let data = [0x01, 0x00]; // 应该等于 256
    let mut slice = &data[..];
    let result = get_short(&mut slice);
    assert_eq!(result, 256);

    let data = [0xFF, 0xFF]; // 应该等于 65535
    let mut slice = &data[..];
    let result = get_short(&mut slice);
    assert_eq!(result, 65535);
}

#[test]
fn test_get_long_basic() {
    let data = [0x12, 0x34, 0x56, 0x78];
    let mut slice = &data[..];
    let result = get_long(&mut slice);
    assert_eq!(result, 0x12345678);
    assert_eq!(slice.len(), 0);
}

#[test]
fn test_get_long_multiple_reads() {
    let data = [0x12, 0x34, 0x56, 0x78, 0x9A, 0xBC, 0xDE, 0xF0];
    let mut slice = &data[..];

    let first = get_long(&mut slice);
    assert_eq!(first, 0x12345678);
    assert_eq!(slice.len(), 4);

    let second = get_long(&mut slice);
    assert_eq!(second, 0x9ABCDEF0);
    assert_eq!(slice.len(), 0);
}

#[test]
fn test_get_long_endianness() {
    // 测试大端序字节序
    let data = [0x00, 0x00, 0x00, 0x01]; // 应该等于 1
    let mut slice = &data[..];
    let result = get_long(&mut slice);
    assert_eq!(result, 1);

    let data = [0x00, 0x00, 0x01, 0x00]; // 应该等于 256
    let mut slice = &data[..];
    let result = get_long(&mut slice);
    assert_eq!(result, 256);

    let data = [0x00, 0x01, 0x00, 0x00]; // 应该等于 65536
    let mut slice = &data[..];
    let result = get_long(&mut slice);
    assert_eq!(result, 65536);

    let data = [0x01, 0x00, 0x00, 0x00]; // 应该等于 16777216
    let mut slice = &data[..];
    let result = get_long(&mut slice);
    assert_eq!(result, 16777216);

    let data = [0xFF, 0xFF, 0xFF, 0xFF]; // 应该等于 4294967295
    let mut slice = &data[..];
    let result = get_long(&mut slice);
    assert_eq!(result, 4294967295);
}

#[test]
fn test_get_short_and_get_long_mixed() {
    let data = [0x12, 0x34, 0x56, 0x78, 0x9A, 0xBC];
    let mut slice = &data[..];

    // 先读一个short
    let short = get_short(&mut slice);
    assert_eq!(short, 0x1234);
    assert_eq!(slice.len(), 4);

    // 再读一个long
    let long = get_long(&mut slice);
    assert_eq!(long, 0x56789ABC);
    assert_eq!(slice.len(), 0);
}

#[test]
fn test_get_short_boundary_values() {
    // 测试边界值
    let data = [0x00, 0x00]; // 最小值
    let mut slice = &data[..];
    assert_eq!(get_short(&mut slice), 0);

    let data = [0xFF, 0xFF]; // 最大值
    let mut slice = &data[..];
    assert_eq!(get_short(&mut slice), 65535);
}

#[test]
fn test_get_long_boundary_values() {
    // 测试边界值
    let data = [0x00, 0x00, 0x00, 0x00]; // 最小值
    let mut slice = &data[..];
    assert_eq!(get_long(&mut slice), 0);

    let data = [0xFF, 0xFF, 0xFF, 0xFF]; // 最大值
    let mut slice = &data[..];
    assert_eq!(get_long(&mut slice), 4294967295);
}

#[test]
fn test_put_short_basic() {
    let mut buffer = Vec::new();
    put_short(0x1234, &mut buffer);
    assert_eq!(buffer, [0x12, 0x34]);
}

#[test]
fn test_put_short_multiple_writes() {
    let mut buffer = Vec::new();
    put_short(0x1234, &mut buffer);
    put_short(0x5678, &mut buffer);
    put_short(0x9ABC, &mut buffer);
    assert_eq!(buffer, [0x12, 0x34, 0x56, 0x78, 0x9A, 0xBC]);
}

#[test]
fn test_put_short_endianness() {
    let mut buffer = Vec::new();

    // 测试最小值
    put_short(0, &mut buffer);
    assert_eq!(buffer, [0x00, 0x00]);
    buffer.clear();

    // 测试中间值
    put_short(1, &mut buffer);
    assert_eq!(buffer, [0x00, 0x01]);
    buffer.clear();

    // 测试256 (0x0100)
    put_short(256, &mut buffer);
    assert_eq!(buffer, [0x01, 0x00]);
    buffer.clear();

    // 测试最大值
    put_short(65535, &mut buffer);
    assert_eq!(buffer, [0xFF, 0xFF]);
}

#[test]
fn test_put_short_boundary_values() {
    let mut buffer = Vec::new();

    // 测试边界值
    put_short(0, &mut buffer); // 最小值
    put_short(32767, &mut buffer); // 中间值
    put_short(65535, &mut buffer); // 最大值

    assert_eq!(buffer, [0x00, 0x00, 0x7F, 0xFF, 0xFF, 0xFF]);
}

#[test]
fn test_put_long_basic() {
    let mut buffer = Vec::new();
    put_long(0x12345678, &mut buffer);
    assert_eq!(buffer, [0x12, 0x34, 0x56, 0x78]);
}

#[test]
fn test_put_long_multiple_writes() {
    let mut buffer = Vec::new();
    put_long(0x12345678, &mut buffer);
    put_long(0x9ABCDEF0, &mut buffer);
    assert_eq!(buffer, [0x12, 0x34, 0x56, 0x78, 0x9A, 0xBC, 0xDE, 0xF0]);
}

#[test]
fn test_put_long_endianness() {
    let mut buffer = Vec::new();

    // 测试最小值
    put_long(0, &mut buffer);
    assert_eq!(buffer, [0x00, 0x00, 0x00, 0x00]);
    buffer.clear();

    // 测试1
    put_long(1, &mut buffer);
    assert_eq!(buffer, [0x00, 0x00, 0x00, 0x01]);
    buffer.clear();

    // 测试256 (0x00000100)
    put_long(256, &mut buffer);
    assert_eq!(buffer, [0x00, 0x00, 0x01, 0x00]);
    buffer.clear();

    // 测试65536 (0x00010000)
    put_long(65536, &mut buffer);
    assert_eq!(buffer, [0x00, 0x01, 0x00, 0x00]);
    buffer.clear();

    // 测试16777216 (0x01000000)
    put_long(16777216, &mut buffer);
    assert_eq!(buffer, [0x01, 0x00, 0x00, 0x00]);
    buffer.clear();

    // 测试最大值
    put_long(4294967295, &mut buffer);
    assert_eq!(buffer, [0xFF, 0xFF, 0xFF, 0xFF]);
}

#[test]
fn test_put_long_boundary_values() {
    let mut buffer = Vec::new();

    // 测试边界值
    put_long(0, &mut buffer); // 最小值
    put_long(2147483647, &mut buffer); // 中间值 (2^31-1)
    put_long(4294967295, &mut buffer); // 最大值

    assert_eq!(
        buffer,
        [
            0x00, 0x00, 0x00, 0x00, // 0
            0x7F, 0xFF, 0xFF, 0xFF, // 2147483647
            0xFF, 0xFF, 0xFF, 0xFF // 4294967295
        ]
    );
}

#[test]
fn test_put_short_and_put_long_mixed() {
    let mut buffer = Vec::new();

    // 混合写入short和long
    put_short(0x1234, &mut buffer);
    put_long(0x56789ABC, &mut buffer);
    put_short(0xDEF0, &mut buffer);

    assert_eq!(
        buffer,
        [
            0x12, 0x34, // 0x1234
            0x56, 0x78, 0x9A, 0xBC, // 0x56789ABC
            0xDE, 0xF0 // 0xDEF0
        ]
    );
}

#[test]
fn test_put_and_get_roundtrip() {
    // 测试put_short和get_short的往返
    let mut buffer = Vec::new();
    put_short(0x1234, &mut buffer);
    let mut slice = &buffer[..];
    let result = get_short(&mut slice);
    assert_eq!(result, 0x1234);
    assert_eq!(slice.len(), 0);

    // 测试put_long和get_long的往返
    buffer.clear();
    put_long(0x56789ABC, &mut buffer);
    let mut slice = &buffer[..];
    let result = get_long(&mut slice);
    assert_eq!(result, 0x56789ABC);
    assert_eq!(slice.len(), 0);

    // 测试混合往返
    buffer.clear();
    put_short(0x1234, &mut buffer);
    put_long(0x56789ABC, &mut buffer);
    put_short(0xDEF0, &mut buffer);

    let mut slice = &buffer[..];
    let short1 = get_short(&mut slice);
    let long = get_long(&mut slice);
    let short2 = get_short(&mut slice);

    assert_eq!(short1, 0x1234);
    assert_eq!(long, 0x56789ABC);
    assert_eq!(short2, 0xDEF0);
    assert_eq!(slice.len(), 0);
}
