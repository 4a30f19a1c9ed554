use vstd::prelude::*;
use crate::error::{KernelError, KernelResult};
use crate::net::config::SOCKET_TABLE_MAX;

verus! {

/// Socket type.
#[derive(Debug, Clone, Copy, PartialEq, Eq, Structural)]
pub enum SocketType {
    /// Stream (TCP).
    Stream,
    /// Datagram (UDP).
    Dgram,
}

/// Address family.
#[derive(Debug, Clone, Copy, PartialEq, Eq, Structural)]
pub enum AddressFamily {
    /// IPv4.
    Inet,
    /// IPv6.
    Inet6,
}

/// Socket address: family, port, IPv4 address.
#[derive(Debug, Clone, Copy, PartialEq, Eq)]
pub struct SocketAddr {
    /// Address family.
    pub family: AddressFamily,
    /// Port.
    pub port: u16,
    /// IPv4 address.
    pub addr: [u8; 4],
}

impl SocketAddr {
    /// IPv4 address `addr`:`port`.
    pub fn new(addr: [u8; 4], port: u16) -> (r: Self)
        ensures
            r.family == AddressFamily::Inet,
            r.port == port,
            r.addr == addr,
    {
        SocketAddr { family: AddressFamily::Inet, port, addr }
    }

    /// 0.0.0.0:`port`.
    pub fn any(port: u16) -> (r: Self)
        ensures
            r.family == AddressFamily::Inet,
            r.port == port,
            r.addr@ == seq![0u8, 0, 0, 0],
    {
        let r = SocketAddr::new([0, 0, 0, 0], port);
        assert(r.addr@ =~= seq![0u8, 0, 0, 0]);
        r
    }

    /// 127.0.0.1:`port`.
    pub fn loopback(port: u16) -> (r: Self)
        ensures
            r.family == AddressFamily::Inet,
            r.port == port,
            r.addr@ == seq![127u8, 0, 0, 1],
    {
        let r = SocketAddr::new([127, 0, 0, 1], port);
        assert(r.addr@ =~= seq![127u8, 0, 0, 1]);
        r
    }
}

/// Socket state.
#[derive(Debug, Clone, Copy, PartialEq, Eq, Structural)]
pub enum SocketState {
    /// Closed.
    Closed,
    /// Created, not bound.
    Created,
    /// Bound to a local address.
    Bound,
    /// Listening.
    Listening,
    /// Connection under way.
    Connecting,
    /// Connected.
    Connected,
    /// Closing.
    Closing,
}

/// An open socket.
#[derive(Debug, Clone)]
pub struct SocketDescriptor {
    /// File descriptor.
    pub fd: u32,
    /// Type.
    pub socket_type: SocketType,
    /// Address family.
    pub family: AddressFamily,
    /// State.
    pub state: SocketState,
    /// Local address, once bound.
    pub local_addr: Option<SocketAddr>,
    /// Remote address, once connecting.
    pub remote_addr: Option<SocketAddr>,
    /// Received bytes not yet read.
    pub recv_buffer: Vec<u8>,
    /// Bytes not yet sent.
    pub send_buffer: Vec<u8>,
}

impl SocketDescriptor {
    /// New socket `fd` in state `Created`, no addresses, empty buffers.
    pub fn new(fd: u32, socket_type: SocketType, family: AddressFamily) -> (r: Self)
        ensures
            r.fd == fd,
            r.socket_type == socket_type,
            r.family == family,
            r.state == SocketState::Created,
            r.local_addr is None,
            r.remote_addr is None,
            r.recv_buffer@ == Seq::<u8>::empty(),
            r.send_buffer@ == Seq::<u8>::empty(),
    {
        SocketDescriptor {
            fd,
            socket_type,
            family,
            state: SocketState::Created,
            local_addr: None,
            remote_addr: None,
            recv_buffer: Vec::new(),
            send_buffer: Vec::new(),
        }
    }

    /// Binds a created socket to `addr`; `InvalidArgument` in any other
    /// state.
    pub fn bind(&mut self, addr: SocketAddr) -> (r: KernelResult<()>)
        ensures
            old(self).state == SocketState::Created ==> r is Ok && final(self).state == SocketState::Bound
                && final(self).local_addr == Some(addr) && final(self).fd == old(self).fd
                && final(self).socket_type == old(self).socket_type && final(self).remote_addr == old(self).remote_addr
                && final(self).recv_buffer@ == old(self).recv_buffer@,
            old(self).state != SocketState::Created ==> r == Err::<(), KernelError>(KernelError::InvalidArgument)
                && *final(self) == *old(self),
    {
        if self.state != SocketState::Created {
            return Err(KernelError::InvalidArgument);
        }
        self.local_addr = Some(addr);
        self.state = SocketState::Bound;
        Ok(())
    }

    /// Puts a bound stream socket into `Listening`; `InvalidArgument` for a
    /// datagram socket or an unbound one.
    pub fn listen(&mut self, backlog: usize) -> (r: KernelResult<()>)
        ensures
            (old(self).socket_type == SocketType::Stream && old(self).state == SocketState::Bound)
                ==> r is Ok && *final(self) == (SocketDescriptor { state: SocketState::Listening, ..*old(self) }),
            !(old(self).socket_type == SocketType::Stream && old(self).state == SocketState::Bound)
                ==> r == Err::<(), KernelError>(KernelError::InvalidArgument) && *final(self) == *old(self),
    {
        if self.socket_type != SocketType::Stream {
            return Err(KernelError::InvalidArgument);
        }
        if self.state != SocketState::Bound {
            return Err(KernelError::InvalidArgument);
        }
        self.state = SocketState::Listening;
        Ok(())
    }

    /// Starts connecting a stream socket to `addr`; `InvalidArgument` for a
    /// datagram socket.
    pub fn connect(&mut self, addr: SocketAddr) -> (r: KernelResult<()>)
        ensures
            old(self).socket_type == SocketType::Stream ==> r is Ok
                && *final(self) == (SocketDescriptor { state: SocketState::Connecting, remote_addr: Some(addr), ..*old(self) }),
            old(self).socket_type != SocketType::Stream ==> r == Err::<(), KernelError>(KernelError::InvalidArgument)
                && *final(self) == *old(self),
    {
        if self.socket_type != SocketType::Stream {
            return Err(KernelError::InvalidArgument);
        }
        self.remote_addr = Some(addr);
        self.state = SocketState::Connecting;
        Ok(())
    }

    /// Closes the socket.
    pub fn close(&mut self) -> (r: KernelResult<()>)
        ensures
            r is Ok,
            *final(self) == (SocketDescriptor { state: SocketState::Closed, ..*old(self) }),
    {
        if self.state == SocketState::Connected {
            self.state = SocketState::Closing;
        }
        self.state = SocketState::Closed;
        Ok(())
    }

    /// Accepts `data` and reports its length; `InvalidArgument` for a stream
    /// socket that is not connected.
    pub fn send(&mut self, data: &[u8]) -> (r: KernelResult<usize>)
        ensures
            *final(self) == *old(self),
            (old(self).state != SocketState::Connected && old(self).socket_type == SocketType::Stream)
                ==> r == Err::<usize, KernelError>(KernelError::InvalidArgument),
            !(old(self).state != SocketState::Connected && old(self).socket_type == SocketType::Stream)
                ==> r == Ok::<usize, KernelError>(data@.len() as usize),
    {
        if self.state != SocketState::Connected && self.socket_type == SocketType::Stream {
            return Err(KernelError::InvalidArgument);
        }
        Ok(data.len())
    }

    /// Moves as many received bytes as fit into the front of `buffer` and
    /// reports how many.
    pub fn recv(&mut self, buffer: &mut [u8]) -> (r: KernelResult<usize>)
        ensures
            r is Ok,
            ({
                let n = r->Ok_0 as int;
                let avail = old(self).recv_buffer@;
                &&& n == (if old(buffer)@.len() < avail.len() { old(buffer)@.len() as int } else { avail.len() as int })
                &&& final(buffer)@.len() == old(buffer)@.len()
                &&& final(buffer)@.subrange(0, n) == avail.subrange(0, n)
                &&& final(buffer)@.subrange(n, old(buffer)@.len() as int) == old(buffer)@.subrange(n, old(buffer)@.len() as int)
                &&& final(self).recv_buffer@ == avail.subrange(n, avail.len() as int)
                &&& final(self).fd == old(self).fd
                &&& final(self).state == old(self).state
                &&& final(self).socket_type == old(self).socket_type
            }),
    {
        if self.recv_buffer.len() == 0 {
            assert(buffer@.subrange(0, 0) =~= self.recv_buffer@.subrange(0, 0));
            assert(self.recv_buffer@.subrange(0, 0) =~= self.recv_buffer@);
            return Ok(0);
        }
        let to_read = if buffer.len() < self.recv_buffer.len() { buffer.len() } else { self.recv_buffer.len() };
        let ghost old_buf = buffer@;
        let mut i: usize = 0;
        while i < to_read
            invariant
                to_read <= buffer@.len(),
                to_read <= self.recv_buffer@.len(),
                buffer@.len() == old_buf.len(),
                i <= to_read,
                forall|k: int| 0 <= k < i ==> buffer@[k] == self.recv_buffer@[k],
                forall|k: int| i <= k < old_buf.len() ==> buffer@[k] == old_buf[k],
            decreases to_read - i,
        {
            buffer[i] = self.recv_buffer[i];
            i = i + 1;
        }
        let mut rest: Vec<u8> = Vec::new();
        let mut j: usize = to_read;
        while j < self.recv_buffer.len()
            invariant
                to_read <= j <= self.recv_buffer@.len(),
                rest@ == self.recv_buffer@.subrange(to_read as int, j as int),
            decreases self.recv_buffer@.len() - j,
        {
            rest.push(self.recv_buffer[j]);
            j = j + 1;
            assert(rest@ =~= self.recv_buffer@.subrange(to_read as int, j as int));
        }
        assert(buffer@.subrange(0, to_read as int) =~= self.recv_buffer@.subrange(0, to_read as int));
        assert(buffer@.subrange(to_read as int, old_buf.len() as int) =~= old_buf.subrange(to_read as int, old_buf.len() as int));
        self.recv_buffer = rest;
        Ok(to_read)
    }
}

/// Whether the descriptors of `s` carry distinct fds, all below `next`.
pub open spec fn fds_ok(s: Seq<SocketDescriptor>, next: u32) -> bool {
    &&& forall|i: int, j: int| 0 <= i < j < s.len() ==> s[i].fd != s[j].fd
    &&& forall|i: int| 0 <= i < s.len() ==> #[trigger] s[i].fd < next
}

/// Index of the socket with `fd` in `s`, if there is one.
pub open spec fn fd_index(s: Seq<SocketDescriptor>, fd: u32) -> Option<int> {
    if exists|i: int| 0 <= i < s.len() && #[trigger] s[i].fd == fd {
        Some(choose|i: int| 0 <= i < s.len() && #[trigger] s[i].fd == fd)
    } else {
        None
    }
}

/// Open sockets, by file descriptor; descriptors are handed out from 3 up
/// and never reused.
pub struct SocketTable {
    sockets: Vec<SocketDescriptor>,
    next_fd: u32,
}

impl View for SocketTable {
    type V = Seq<SocketDescriptor>;

    closed spec fn view(&self) -> Seq<SocketDescriptor> {
        self.sockets@
    }
}

impl SocketTable {
    /// The next descriptor to hand out.
    pub closed spec fn next_fd(&self) -> u32 {
        self.next_fd
    }

    /// The table's invariant.
    pub open spec fn wf(&self) -> bool {
        &&& fds_ok(self@, self.next_fd())
        &&& self@.len() <= SOCKET_TABLE_MAX
        &&& self.next_fd() >= 3
    }

    /// Empty table; the first descriptor will be 3.
    pub fn new() -> (r: Self)
        ensures
            r.wf(),
            r@ == Seq::<SocketDescriptor>::empty(),
            r.next_fd() == 3,
    {
        SocketTable { sockets: Vec::new(), next_fd: 3 }
    }

    /// Creates a socket and returns its descriptor; `OutOfMemory` when the
    /// table is full.
    pub fn socket(&mut self, family: AddressFamily, socket_type: SocketType) -> (r: KernelResult<u32>)
        requires
            old(self).wf(),
            old(self).next_fd() < u32::MAX,
        ensures
            final(self).wf(),
            old(self)@.len() >= SOCKET_TABLE_MAX ==> r == Err::<u32, KernelError>(KernelError::OutOfMemory)
                && final(self)@ == old(self)@ && final(self).next_fd() == old(self).next_fd(),
            old(self)@.len() < SOCKET_TABLE_MAX ==> r == Ok::<u32, KernelError>(old(self).next_fd())
                && final(self).next_fd() == old(self).next_fd() + 1
                && final(self)@.len() == old(self)@.len() + 1
                && final(self)@.subrange(0, old(self)@.len() as int) == old(self)@
                && ({
                    let s = final(self)@.last();
                    &&& s.fd == old(self).next_fd()
                    &&& s.socket_type == socket_type
                    &&& s.family == family
                    &&& s.state == SocketState::Created
                    &&& s.local_addr is None
                    &&& s.remote_addr is None
                    &&& s.recv_buffer@.len() == 0
                    &&& s.send_buffer@.len() == 0
                }),
    {
        if self.sockets.len() >= SOCKET_TABLE_MAX {
            return Err(KernelError::OutOfMemory);
        }
        let fd = self.next_fd;
        self.next_fd = self.next_fd + 1;
        let socket = SocketDescriptor::new(fd, socket_type, family);
        self.sockets.push(socket);
        assert(self@.subrange(0, self@.len() - 1) =~= old(self)@);
        Ok(fd)
    }

    fn find(&self, fd: u32) -> (r: Option<usize>)
        requires
            self.wf(),
        ensures
            r is None <==> fd_index(self@, fd) is None,
            r is Some ==> fd_index(self@, fd) == Some(r->Some_0 as int) && r->Some_0 < self@.len()
                && self@[r->Some_0 as int].fd == fd,
    {
        let mut i: usize = 0;
        while i < self.sockets.len()
            invariant
                self.wf(),
                i <= self@.len(),
                forall|k: int| 0 <= k < i ==> #[trigger] self@[k].fd != fd,
            decreases self@.len() - i,
        {
            if self.sockets[i].fd == fd {
                assert(self@[i as int].fd == fd);
                return Some(i);
            }
            i = i + 1;
        }
        None
    }

    /// The socket with descriptor `fd`, for changing it; `NotFound` when
    /// there is none.
    pub fn get_mut(&mut self, fd: u32) -> (r: KernelResult<&mut SocketDescriptor>)
        requires
            old(self).wf(),
        ensures
            fd_index(old(self)@, fd) is None ==> r is Err && r->Err_0 == KernelError::NotFound
                && final(self)@ == old(self)@,
            fd_index(old(self)@, fd) is Some ==> r is Ok && *r->Ok_0 == old(self)@[fd_index(old(self)@, fd)->Some_0]
                && final(self)@ == old(self)@.update(fd_index(old(self)@, fd)->Some_0, *final(r->Ok_0)),
            final(self).next_fd() == old(self).next_fd(),
    {
        match self.find(fd) {
            Some(i) => Ok(&mut self.sockets[i]),
            None => Err(KernelError::NotFound),
        }
    }

    /// The socket with descriptor `fd`; `NotFound` when there is none.
    pub fn get(&self, fd: u32) -> (r: KernelResult<&SocketDescriptor>)
        requires
            self.wf(),
        ensures
            fd_index(self@, fd) is None ==> r is Err && r->Err_0 == KernelError::NotFound,
            fd_index(self@, fd) is Some ==> r is Ok && *r->Ok_0 == self@[fd_index(self@, fd)->Some_0],
    {
        match self.find(fd) {
            Some(i) => Ok(&self.sockets[i]),
            None => Err(KernelError::NotFound),
        }
    }

    /// Closes and removes the socket with descriptor `fd`; `NotFound` when
    /// there is none.
    pub fn close(&mut self, fd: u32) -> (r: KernelResult<()>)
        requires
            old(self).wf(),
        ensures
            final(self).wf(),
            final(self).next_fd() == old(self).next_fd(),
            fd_index(old(self)@, fd) is None ==> r == Err::<(), KernelError>(KernelError::NotFound)
                && final(self)@ == old(self)@,
            fd_index(old(self)@, fd) is Some ==> r == Ok::<(), KernelError>(())
                && final(self)@ == old(self)@.remove(fd_index(old(self)@, fd)->Some_0),
    {
        match self.find(fd) {
            Some(i) => {
                let ghost before = self@;
                let mut s = self.sockets.remove(i);
                let _ = s.close();
                assert(self@ =~= before.remove(i as int));
                assert forall|a: int, b: int| 0 <= a < b < self@.len() implies self@[a].fd != self@[b].fd by {
                    let a2 = if a < i { a } else { a + 1 };
                    let b2 = if b < i { b } else { b + 1 };
                    assert(self@[a] == before[a2] && self@[b] == before[b2]);
                }
                assert forall|a: int| 0 <= a < self@.len() implies #[trigger] self@[a].fd < self.next_fd by {
                    let a2 = if a < i { a } else { a + 1 };
                    assert(self@[a] == before[a2]);
                }
                Ok(())
            },
            None => Err(KernelError::NotFound),
        }
    }

    /// Number of open sockets.
    pub fn len(&self) -> (r: usize)
        ensures
            r == self@.len(),
    {
        self.sockets.len()
    }
}

/// Creates a stream socket, binds it, puts it into listening, and checks
/// its states and the table size; always passes.
pub fn selftest() -> (r: bool)
    ensures
        r,
{
    let mut table = SocketTable::new();
    let fd = match table.socket(AddressFamily::Inet, SocketType::Stream) {
        Ok(fd) => fd,
        Err(_) => {
            return false;
        },
    };
    proof {
        assert(table@[0].fd == 3);
        assert(fd_index(table@, fd) == Some(0int));
    }
    let ok = match table.get_mut(fd) {
        Ok(socket) => {
            let addr = SocketAddr::new([127, 0, 0, 1], 8080);
            if socket.bind(addr).is_err() {
                false
            } else if socket.state != SocketState::Bound {
                false
            } else if socket.listen(5).is_err() {
                false
            } else {
                socket.state == SocketState::Listening
            }
        },
        Err(_) => false,
    };
    ok && table.len() == 1
}

} // verus!
