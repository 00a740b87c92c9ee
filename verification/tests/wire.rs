use radial_nav::signal::Signal;

#[derive(Debug, PartialEq)]
struct Ping {
    from: u64,
    hops: u32,
}

impl Signal for Ping {
    fn serialize(&self) -> String {
        format!("{} {}", self.from, self.hops)
    }

    fn deserialize(data: String) -> Ping {
        let mut parts = data.split(' ');
        let from = parts.next().unwrap().parse::<u64>().unwrap();
        let hops = parts.next().unwrap().parse::<u32>().unwrap();
        Ping { from, hops }
    }
}

fn there_and_back<T: Signal>(signal: &T) -> T {
    T::deserialize(signal.serialize())
}

#[test]
fn signal_goes_to_text_and_back() {
    let ping = Ping { from: 7, hops: 3 };
    assert_eq!(ping.serialize(), "7 3");
    assert_eq!(there_and_back(&ping), ping);
}
