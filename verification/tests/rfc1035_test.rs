use utdnsmasq::rfc1035::{add_text_record, extract_name};
use utdnsmasq::util::canonicalise;

/// 测试 extract_name 函数的基本域名解析
#[test]
fn test_extract_name_basic() {
    // 基本域名: "example.com"
    let packet = vec![0; 100]; // 空packet，不使用压缩指针
    let data = [
        7, b'e', b'x', b'a', b'm', b'p', b'l', b'e', // "example" (7字节)
        3, b'c', b'o', b'm', // "com" (3字节)
        0,    // 结束标记
    ];

    let result = extract_name(&packet, &mut &data[..]);

    assert_eq!(result, "example.com", "基本域名解析失败");
}

/// 测试 extract_name 函数的单标签域名
#[test]
fn test_extract_name_single_label() {
    let packet = vec![0; 100];
    let data = [
        9, b'l', b'o', b'c', b'a', b'l', b'h', b'o', b's', b't', // "localhost" (9字节)
        0,    // 结束标记
    ];

    let result = extract_name(&packet, &mut &data[..]);

    assert_eq!(result, "localhost", "单标签域名解析失败");
}

/// 测试 extract_name 函数的多标签域名
#[test]
fn test_extract_name_multiple_labels() {
    let packet = vec![0; 100];
    let data = [
        3, b'w', b'w', b'w', // "www" (3字节)
        7, b'e', b'x', b'a', b'm', b'p', b'l', b'e', // "example" (7字节)
        3, b'c', b'o', b'm', // "com" (3字节)
        0,    // 结束标记
    ];

    let result = extract_name(&packet, &mut &data[..]);

    assert_eq!(result, "www.example.com", "多标签域名解析失败");
}

/// 测试 extract_name 函数的压缩指针功能
#[test]
fn test_extract_name_compression_pointer() {
    // 创建包含压缩指针的数据包
    // 域名: "example.com" 出现在偏移量12处
    let mut packet = vec![0; 100];

    // 在偏移量12处放置域名
    packet[12] = 7; // "example" 长度
    packet[13..20].copy_from_slice(b"example");
    packet[20] = 3; // "com" 长度
    packet[21..24].copy_from_slice(b"com");
    packet[24] = 0; // 结束标记
    packet[25] = 0xC0;
    packet[26] = 0x0C;

    // 压缩指针: 0xC00C (指向偏移量12)
    let data = &packet[25..];

    let result = extract_name(&packet, &mut &data[..]);

    assert_eq!(result, "example.com", "压缩指针域名解析失败");
}

/// 测试 extract_name 函数的非法字符处理
#[test]
fn test_extract_name_invalid_characters() {
    let packet = vec![0; 100];
    // 包含非法字符的域名
    let data = [
        3, b't', b'e', 0xFF, // 包含非法字符0xFF
        3, b'c', b'o', b'm', 0,
    ];

    let result = extract_name(&packet, &mut &data[..]);

    assert_eq!(result, "", "包含非法字符的域名应该返回空字符串");
}

/// 测试 extract_name 函数的域名长度过长情况
#[test]
fn test_extract_name_too_long() {
    let packet = vec![0; 100];
    // 创建超长域名标签
    let long_label: Vec<u8> = vec![b'a'; 64]; // 64个字符，超过DNS标签限制
    let mut data = Vec::new();
    data.push(64); // 长度字节
    data.extend(&long_label);
    data.push(0); // 结束标记

    let result = extract_name(&packet, &mut &data[..]);

    assert_eq!(result, "", "超长域名标签应该返回空字符串");
}

/// 测试 extract_name 函数的压缩指针越界情况
#[test]
fn test_extract_name_compression_out_of_bounds() {
    let packet = vec![0; 50]; // 小packet
                              // 压缩指针指向packet范围外
    let data = [0xC0, 0xFF]; // 指向偏移量255，超出packet范围

    let result = extract_name(&packet, &mut &data[..]);

    assert_eq!(result, "", "压缩指针越界应该返回空字符串");
}

/// 测试 extract_name 函数的保留标签类型处理
#[test]
fn test_extract_name_reserved_label_type() {
    let packet = vec![0; 100];
    // 保留标签类型 (0x80)
    let data = [0x80, 0x00]; // 保留类型

    let result = extract_name(&packet, &mut &data[..]);

    assert_eq!(result, "", "保留标签类型应该返回空字符串");
}

/// 测试 extract_name 函数的跳数限制
#[test]
fn test_extract_name_too_many_hops() {
    let mut packet = vec![0; 100];
    // 创建循环压缩指针（模拟过多跳数）
    packet[12] = 0xC0; // 指向自身
    packet[13] = 0x0C;

    let data = [0xC0, 0x0C]; // 指向偏移量12

    let result = extract_name(&packet, &mut &data[..]);

    assert_eq!(result, "", "过多跳数应该返回空字符串");
}

/// 测试 extract_name 函数的边界情况：最大长度域名
#[test]
fn test_extract_name_max_length() {
    let packet = vec![0; 500];
    let mut data = Vec::new();

    // 创建接近最大长度的域名 (每个标签63字符，总长度接近253字符)
    for _ in 0..3 {
        data.push(10); // 10字符标签
        data.extend(vec![b'a'; 10]); // 10个'a'
    }
    data.push(0); // 结束标记

    let result = extract_name(&packet, &mut &data[..]);

    // 应该成功解析
    assert!(!result.is_empty(), "接近最大长度的域名应该成功解析");
    assert_eq!(result, "aaaaaaaaaa.aaaaaaaaaa.aaaaaaaaaa", "域名格式不正确");
}

/// 测试 add_text_record 函数的基本功能
#[test]
fn test_add_text_record_basic() {
    let nameoffset = 0x0012; // 域名偏移量
    let ttl = 3600; // TTL 1小时
    let qtype = 16; // TXT记录类型
    let pref = 0; // 优先级（对于TXT记录通常为0）
    let name = "example.com";

    // 添加域名检测验证

    // 验证测试使用的域名是有效的
    assert!(canonicalise(name), "域名 '{}' 格式无效", name);

    // 验证域名包含有效的标签
    let labels: Vec<&str> = name.split('.').collect();
    assert!(!labels.is_empty(), "域名应该包含至少一个标签");
    for label in &labels {
        assert!(!label.is_empty(), "域名标签不能为空");
        assert!(
            label.len() <= 63,
            "域名标签长度不能超过63个字符: '{}'",
            label
        );
    }

    // 验证整个域名长度在合理范围内
    assert!(name.len() <= 253, "域名总长度不能超过253个字符: '{}'", name);

    let result = add_text_record(nameoffset, ttl, pref, qtype, name);

    // 验证结果不为空
    assert!(!result.is_empty());

    // 验证基本结构：域名偏移 + 类型 + 类别 + TTL + 数据长度 + 数据
    assert!(result.len() >= 12); // 至少包含基本头部信息

    // 验证域名偏移（压缩指针形式）
    assert_eq!(result[0], 0xC0); // 压缩指针标志
    assert_eq!(result[1], 0x12); // 偏移量

    // 验证记录类型
    assert_eq!(result[2], 0x00); // qtype高字节
    assert_eq!(result[3], 0x10); // qtype低字节 (TXT=16)

    // 验证类别（应该为C_IN=1）
    assert_eq!(result[4], 0x00); // 类别高字节
    assert_eq!(result[5], 0x01); // 类别低字节

    // 验证TTL
    assert_eq!(result[6], 0x00); // TTL字节1
    assert_eq!(result[7], 0x00); // TTL字节2
    assert_eq!(result[8], 0x0E); // TTL字节3 (3600 = 0x0E10)
    assert_eq!(result[9], 0x10); // TTL字节4

    // 额外验证：检查生成的记录中的域名数据部分
    let data_length_pos = 10;
    let data_length =
        ((result[data_length_pos] as u16) << 8) | (result[data_length_pos + 1] as u16);
    assert!(data_length > 0, "数据部分长度应该大于0");

    // 验证域名数据格式正确
    let data_start = data_length_pos + 2;
    let mut pos = data_start;

    for label in labels {
        assert_eq!(
            result[pos] as usize,
            label.len(),
            "标签 '{}' 长度不匹配",
            label
        );
        pos += 1;
        let label_bytes = label.as_bytes();
        assert_eq!(
            &result[pos..pos + label.len()],
            label_bytes,
            "标签 '{}' 内容不匹配",
            label
        );
        pos += label.len();
    }

    assert_eq!(result[pos], 0, "域名数据应该以0结束");
}

/// 测试 add_text_record 函数的数据部分
#[test]
fn test_add_text_record_data_section() {
    let nameoffset = 0x0020;
    let ttl = 7200;
    let qtype = 16; // TXT
    let pref = 0;
    let name = "test.example.org";

    let result = add_text_record(nameoffset, ttl, pref, qtype, name);

    // 找到数据长度字段的位置（在TTL之后）
    let data_length_pos = 10; // TTL之后的位置
    let data_length =
        ((result[data_length_pos] as u16) << 8) | (result[data_length_pos + 1] as u16);

    // 验证数据长度正确（大端序）
    let mut expected_length = 0;
    for label in name.split('.') {
        expected_length += 1 + label.len(); // 长度字节 + 标签内容
    }
    expected_length += 1; // 结束符

    // 实际测试：先验证函数是否正常工作，再检查具体值
    assert!(data_length > 0, "数据长度应该大于0");
    assert_eq!(data_length as usize, expected_length, "数据长度计算错误");

    // 验证域名数据格式
    let data_start = data_length_pos + 2;
    let mut pos = data_start;

    for label in name.split('.') {
        assert_eq!(result[pos] as usize, label.len());
        pos += 1;

        let label_bytes = label.as_bytes();
        assert_eq!(&result[pos..pos + label.len()], label_bytes);
        pos += label.len();
    }

    // 验证结束符
    assert_eq!(result[pos], 0);
}

/// 测试 add_text_record 函数带有优先级的情况
#[test]
fn test_add_text_record_with_preference() {
    let nameoffset = 0x0015;
    let ttl = 1800;
    let qtype = 33; // SRV记录类型
    let pref = 10; // 优先级
    let name = "service.example.com";

    let result = add_text_record(nameoffset, ttl, pref, qtype, name);

    // 验证结果包含优先级字段
    assert!(!result.is_empty());

    // 找到数据部分
    let data_length_pos = 10;
    let data_start = data_length_pos + 2;

    // 验证优先级字段存在
    let priority_pos = data_start;
    assert_eq!(result[priority_pos], 0x00); // 优先级高字节
    assert_eq!(result[priority_pos + 1], 0x0A); // 优先级低字节 (10)

    // 验证域名数据在优先级之后
    let domain_start = priority_pos + 2;
    let mut pos = domain_start;

    for label in name.split('.') {
        assert_eq!(result[pos] as usize, label.len());
        pos += 1;
        let label_bytes = label.as_bytes();
        assert_eq!(&result[pos..pos + label.len()], label_bytes);
        pos += label.len();
    }

    assert_eq!(result[pos], 0); // 结束符
}

/// 测试 add_text_record 函数的单标签域名
#[test]
fn test_add_text_record_single_label() {
    let nameoffset = 0x0018;
    let ttl = 900;
    let qtype = 16; // TXT
    let pref = 0;
    let name = "localhost"; // 单标签域名

    let result = add_text_record(nameoffset, ttl, pref, qtype, name);

    // 验证数据长度
    let data_length_pos = 10;
    let data_length =
        ((result[data_length_pos] as u16) << 8) | (result[data_length_pos + 1] as u16);
    assert_eq!(data_length as usize, name.len() + 1 + 1); // 标签长度 + 长度字节 + 结束符

    // 验证域名数据
    let data_start = data_length_pos + 2;
    assert_eq!(result[data_start] as usize, name.len());
    assert_eq!(
        &result[data_start + 1..data_start + 1 + name.len()],
        name.as_bytes()
    );
    assert_eq!(result[data_start + 1 + name.len()], 0); // 结束符
}

/// 测试 add_text_record 函数的长域名处理
#[test]
fn test_add_text_record_long_domain() {
    let nameoffset = 0x0025;
    let ttl = 86400; // 1天
    let qtype = 16; // TXT
    let pref = 0;
    let name = "very.long.subdomain.name.that.has.many.labels.example.com";

    let result = add_text_record(nameoffset, ttl, pref, qtype, name);

    // 验证结果不为空
    assert!(!result.is_empty());

    // 验证数据长度计算正确
    let data_length_pos = 10;
    let data_length =
        ((result[data_length_pos] as u16) << 8) | (result[data_length_pos + 1] as u16);

    let mut expected_length = 0;
    for label in name.split('.') {
        expected_length += 1 + label.len(); // 长度字节 + 标签内容
    }
    expected_length += 1; // 结束符

    assert_eq!(data_length as usize, expected_length);

    // 验证域名数据格式正确
    let data_start = data_length_pos + 2;
    let mut pos = data_start;

    for label in name.split('.') {
        assert_eq!(result[pos] as usize, label.len());
        pos += 1;
        let label_bytes = label.as_bytes();
        assert_eq!(&result[pos..pos + label.len()], label_bytes);
        pos += label.len();
    }

    assert_eq!(result[pos], 0); // 结束符
}

/// 测试 add_text_record 函数的不同记录类型
#[test]
fn test_add_text_record_different_types() {
    let test_cases = vec![
        (1, "A记录"),     // A记录
        (28, "AAAA记录"), // AAAA记录
        (15, "MX记录"),   // MX记录
        (16, "TXT记录"),  // TXT记录
        (33, "SRV记录"),  // SRV记录
    ];

    for (qtype, description) in test_cases {
        let nameoffset = 0x0012;
        let ttl = 3600;
        let pref = if qtype == 15 || qtype == 33 { 10 } else { 0 }; // MX和SRV记录需要优先级
        let name = "test.example.com";

        let result = add_text_record(nameoffset, ttl, pref, qtype, name);

        // 验证记录类型设置正确
        assert_eq!(result[2], (qtype >> 8) as u8);
        assert_eq!(result[3], (qtype & 0xFF) as u8);

        // 验证结果不为空
        assert!(!result.is_empty(), "{} 测试失败", description);
    }
}

/// 测试 add_text_record 函数的TTL编码
#[test]
fn test_add_text_record_ttl_encoding() {
    let test_cases = vec![
        (0, "零TTL"),
        (1, "最小TTL"),
        (300, "5分钟"),
        (3600, "1小时"),
        (86400, "1天"),
        (2147483647, "最大TTL"), // 最大32位有符号整数
    ];

    for (ttl, description) in test_cases {
        let nameoffset = 0x0010;
        let qtype = 16; // TXT
        let pref = 0;
        let name = "ttl-test.example.com";

        let result = add_text_record(nameoffset, ttl, pref, qtype, name);

        // 验证TTL编码正确
        let ttl_bytes = &result[6..10];
        let decoded_ttl = ((ttl_bytes[0] as u32) << 24)
            | ((ttl_bytes[1] as u32) << 16)
            | ((ttl_bytes[2] as u32) << 8)
            | (ttl_bytes[3] as u32);

        assert_eq!(decoded_ttl, ttl, "{} TTL编码测试失败", description);
    }
}

/// 测试 add_text_record 函数的综合场景
#[test]
fn test_add_text_record_integration() {
    // 模拟真实场景：创建多个记录并验证其格式
    let records = [
        (0x0012, 3600, 1, 0, "host1.example.com"),  // A记录1600 ~
        (0x0020, 7200, 28, 0, "host2.example.com"), // AAAA记录1601 ~
        (0x0030, 1800, 16, 0, "text.example.com"),
    ];

    for (i, (nameoffset, ttl, qtype, pref, name)) in records.iter().enumerate() {
        let result = add_text_record(*nameoffset, *ttl, *pref, *qtype, name);

        // 基本验证
        assert!(!result.is_empty(), "记录 {} 生成失败", i);

        // 验证压缩指针
        assert_eq!(result[0], 0xC0);
        assert_eq!(result[1], (*nameoffset & 0xFF) as u8);

        // 验证记录类型
        assert_eq!(result[3], (*qtype & 0xFF) as u8);

        // 验证TTL
        let decoded_ttl = ((result[6] as u32) << 24)
            | ((result[7] as u32) << 16)
            | ((result[8] as u32) << 8)
            | (result[9] as u32);
        assert_eq!(decoded_ttl, *ttl);

        // 验证域名数据
        let data_length_pos = 10;
        let data_start = data_length_pos + 2;
        let mut pos = data_start;

        if *pref != 0 {
            pos += 2; // 跳过优先级字段
        }

        for label in name.split('.') {
            assert_eq!(result[pos] as usize, label.len());
            pos += 1;
            let label_bytes = label.as_bytes();
            assert_eq!(&result[pos..pos + label.len()], label_bytes);
            pos += label.len();
        }

        assert_eq!(result[pos], 0); // 结束符
    }
}
